use vstd::prelude::*;

use crate::matcher::line_matches;
use crate::print_with_context::{
    after_state, after_step, before_state, before_step, close_groups, context_groups, index_range,
    lemma_after_state_within,
    match_flags, max_int, min_int, render_group, render_groups, selected_indices, split_if_far,
    after_groups, before_groups, GroupState, after_context_output, before_context_output,
    context_output, context_text, groups_with_text, highlighted, line_number_prefix, with_text,
};
use crate::process::{inverted_output, match_count, matches_output, miss_flags, search_output};
use crate::flag::Flags;
use crate::utils::ContextType;
use crate::utils::{colored, Colors, decimal, digit_char, digits_value, is_decimal_digit, parsed_usize, unsigned_digits};

verus! {

/// The indices of all groups, one group after the other.
pub open spec fn flatten(groups: Seq<Seq<int>>) -> Seq<int>
    decreases groups.len(),
{
    if groups.len() == 0 {
        Seq::empty()
    } else {
        flatten(groups.drop_last()) + groups.last()
    }
}

/// Each element is smaller than every later one.
pub open spec fn strictly_increasing(s: Seq<int>) -> bool {
    forall|a: int, b: int| 0 <= a < b < s.len() ==> s[a] < s[b]
}

/// No group is empty.
pub open spec fn all_nonempty(groups: Seq<Seq<int>>) -> bool {
    forall|g: int| 0 <= g < groups.len() ==> #[trigger] groups[g].len() > 0
}

/// The indices a pass has collected so far, closed groups first.
pub open spec fn pass_flat(s: GroupState) -> Seq<int> {
    flatten(s.0) + s.1
}

proof fn lemma_flatten_push(groups: Seq<Seq<int>>, g: Seq<int>)
    ensures
        flatten(groups.push(g)) == flatten(groups) + g,
{
    assert(groups.push(g).drop_last() =~= groups);
}

proof fn lemma_split_keeps(s: GroupState, i: int, context_size: int)
    requires
        all_nonempty(s.0),
    ensures
        flatten(split_if_far(s.0, s.1, i, context_size).0) + split_if_far(s.0, s.1, i, context_size).1
            == pass_flat(s),
        all_nonempty(split_if_far(s.0, s.1, i, context_size).0),
{
    let (done, current) = split_if_far(s.0, s.1, i, context_size);
    if s.1.len() > 0 && s.1.last() + context_size < i {
        lemma_flatten_push(s.0, s.1);
        assert(flatten(done) + current =~= pass_flat(s));
        assert forall|g: int| 0 <= g < done.len() implies #[trigger] done[g].len() > 0 by {
            if g < s.0.len() {
                assert(done[g] == s.0[g]);
            }
        }
    }
}

proof fn lemma_close_keeps(s: GroupState)
    requires
        all_nonempty(s.0),
    ensures
        flatten(close_groups(s)) == pass_flat(s),
        all_nonempty(close_groups(s)),
{
    if s.1.len() > 0 {
        lemma_flatten_push(s.0, s.1);
        let gs = close_groups(s);
        assert forall|g: int| 0 <= g < gs.len() implies #[trigger] gs[g].len() > 0 by {
            if g < s.0.len() {
                assert(gs[g] == s.0[g]);
            }
        }
    } else {
        assert(pass_flat(s) =~= flatten(s.0));
    }
}

proof fn lemma_increasing_append(a: Seq<int>, b: Seq<int>, bound: int)
    requires
        strictly_increasing(a),
        strictly_increasing(b),
        forall|t: int| 0 <= t < a.len() ==> #[trigger] a[t] < bound,
        forall|t: int| 0 <= t < b.len() ==> #[trigger] b[t] >= bound,
    ensures
        strictly_increasing(a + b),
{
    let c = a + b;
    assert forall|x: int, y: int| 0 <= x < y < c.len() implies c[x] < c[y] by {
        if y < a.len() {
        } else if x >= a.len() {
            assert(c[x] == b[x - a.len()]);
            assert(c[y] == b[y - a.len()]);
        } else {
            assert(c[x] == a[x]);
            assert(c[y] == b[y - a.len()]);
        }
    }
}

proof fn lemma_range(lo: int, hi: int)
    ensures
        strictly_increasing(index_range(lo, hi)),
        forall|t: int| 0 <= t < index_range(lo, hi).len() ==> lo <= #[trigger] index_range(lo, hi)[t] < hi,
        forall|x: int| lo <= x < hi ==> index_range(lo, hi).contains(x),
{
    let r = index_range(lo, hi);
    assert forall|x: int| lo <= x < hi implies r.contains(x) by {
        assert(r[x - lo] == x);
    }
}

/// Some line before index `k` that `matched` marks lies between `j` and
/// `context_size` lines after it.
pub open spec fn match_within_after(matched: Seq<bool>, k: int, j: int, context_size: int) -> bool {
    exists|m: int| 0 <= m < k && #[trigger] matched[m] && j <= m <= j + context_size
}

/// Some line before index `k` that `matched` marks lies between
/// `context_size` lines before `j` and `j`.
pub open spec fn match_within_before(matched: Seq<bool>, k: int, j: int, context_size: int) -> bool {
    exists|m: int| 0 <= m < k && #[trigger] matched[m] && m <= j <= m + context_size
}

/// The invariant of the before-context pass over the first `k` lines.
pub open spec fn before_invariant(matched: Seq<bool>, context_size: int, k: int, s: GroupState) -> bool {
    let f = pass_flat(s);
    &&& all_nonempty(s.0)
    &&& strictly_increasing(f)
    &&& 0 <= s.2 <= k
    &&& forall|t: int| 0 <= t < f.len() ==> 0 <= #[trigger] f[t] < s.2
    &&& forall|t: int| 0 <= t < f.len() ==> match_within_after(matched, k, #[trigger] f[t], context_size)
    &&& forall|m: int| 0 <= m < k && #[trigger] matched[m] ==> f.contains(m)
}

#[verifier::spinoff_prover]
#[verifier::rlimit(40)]
proof fn lemma_before_invariant(matched: Seq<bool>, context_size: int, k: nat)
    requires
        k <= matched.len(),
        context_size >= 0,
    ensures
        before_invariant(matched, context_size, k as int, before_state(matched, context_size, k)),
    decreases k,
{
    if k == 0 {
        assert(pass_flat(before_state(matched, context_size, 0)) =~= Seq::<int>::empty());
    } else {
        lemma_before_invariant(matched, context_size, (k - 1) as nat);
        let s = before_state(matched, context_size, (k - 1) as nat);
        let i = k - 1;
        let f0 = pass_flat(s);
        if matched[i] {
            lemma_split_keeps(s, i, context_size);
            let (done, current) = split_if_far(s.0, s.1, i, context_size);
            let start = max_int(max_int(i - context_size, 0), s.2);
            let range = index_range(start, i);
            let added = range.push(i);
            let ns = before_state(matched, context_size, k);
            assert(ns == (done, current + added, i + 1));
            let f1 = pass_flat(ns);
            assert(f1 =~= f0 + added);
            lemma_range(start, i);
            assert(strictly_increasing(added)) by {
                assert forall|x: int, y: int| 0 <= x < y < added.len() implies added[x] < added[y] by {
                    if y == range.len() {
                        assert(added[x] == range[x]);
                    } else {
                        assert(added[x] == range[x]);
                        assert(added[y] == range[y]);
                    }
                }
            }
            assert forall|t: int| 0 <= t < added.len() implies #[trigger] added[t] >= s.2 && i - context_size <= added[t] <= i by {
                if t < range.len() {
                    assert(added[t] == range[t]);
                }
            }
            lemma_increasing_append(f0, added, s.2);
            assert forall|t: int| 0 <= t < f1.len() implies 0 <= #[trigger] f1[t] < ns.2 by {
                if t >= f0.len() {
                    assert(f1[t] == added[t - f0.len()]);
                } else {
                    assert(f1[t] == f0[t]);
                }
            }
            assert forall|t: int| 0 <= t < f1.len() implies match_within_after(matched, k as int, #[trigger] f1[t], context_size) by {
                if t >= f0.len() {
                    assert(f1[t] == added[t - f0.len()]);
                    assert(matched[i]);
                } else {
                    assert(f1[t] == f0[t]);
                    assert(match_within_after(matched, i, f0[t], context_size));
                    let m = choose|m: int| 0 <= m < i && #[trigger] matched[m] && f0[t] <= m <= f0[t] + context_size;
                    assert(matched[m]);
                }
            }
            assert forall|m: int| 0 <= m < k && #[trigger] matched[m] implies f1.contains(m) by {
                if m == i {
                    assert(f1[f1.len() - 1] == i);
                } else {
                    assert(f0.contains(m));
                    let t = choose|t: int| 0 <= t < f0.len() && f0[t] == m;
                    assert(f1[t] == m);
                }
            }
        } else {
            assert forall|t: int| 0 <= t < f0.len() implies match_within_after(matched, k as int, #[trigger] f0[t], context_size) by {
                assert(match_within_after(matched, i, f0[t], context_size));
                let m = choose|m: int| 0 <= m < i && #[trigger] matched[m] && f0[t] <= m <= f0[t] + context_size;
                assert(matched[m]);
            }
        }
    }
}

/// Before-context groups: no group is empty, no line is printed twice and
/// lines come in input order, and the printed lines are exactly the lines
/// of the input that lie at most `context_size` lines before a matching
/// line (matching lines included).
pub proof fn law_before_context_groups(re: (Seq<char>, bool), lines: Seq<Seq<char>>, context_size: int)
    requires
        context_size >= 0,
    ensures
        all_nonempty(before_groups(match_flags(re, lines), context_size)),
        strictly_increasing(flatten(before_groups(match_flags(re, lines), context_size))),
        forall|t: int|
            0 <= t < flatten(before_groups(match_flags(re, lines), context_size)).len() ==> {
                let j = #[trigger] flatten(before_groups(match_flags(re, lines), context_size))[t];
                0 <= j < lines.len() && match_within_after(match_flags(re, lines), lines.len() as int, j, context_size)
            },
        forall|m: int|
            0 <= m < lines.len() && line_matches(re, #[trigger] lines[m]) ==> flatten(
                before_groups(match_flags(re, lines), context_size),
            ).contains(m),
        forall|j: int|
            0 <= j < lines.len() && #[trigger] match_within_after(match_flags(re, lines), lines.len() as int, j, context_size)
                ==> flatten(before_groups(match_flags(re, lines), context_size)).contains(j),
{
    let mf = match_flags(re, lines);
    lemma_before_invariant(mf, context_size, mf.len());
    lemma_before_structure(mf, context_size, mf.len());
    let s = before_state(mf, context_size, mf.len());
    lemma_close_keeps(s);
    assert forall|m: int| 0 <= m < lines.len() && line_matches(re, #[trigger] lines[m]) implies flatten(
        before_groups(mf, context_size),
    ).contains(m) by {
        assert(mf[m]);
    }
}

/// The invariant of the after-context pass over the first `k` lines.
pub open spec fn after_invariant(matched: Seq<bool>, context_size: int, k: int, s: GroupState) -> bool {
    let f = pass_flat(s);
    let n = matched.len() as int;
    &&& all_nonempty(s.0)
    &&& strictly_increasing(f)
    &&& s.2 >= 0
    &&& forall|t: int| 0 <= t < f.len() ==> 0 <= #[trigger] f[t] < n && f[t] < s.2
    &&& forall|t: int| 0 <= t < f.len() ==> match_within_before(matched, k, #[trigger] f[t], context_size)
    &&& forall|x: int| 0 <= x < n && #[trigger] match_within_before(matched, k, x, context_size) ==> f.contains(x)
    &&& s.2 == 0 || exists|p: int| 0 <= p < k && #[trigger] matched[p] && s.2 == p + context_size + 1
}

#[verifier::spinoff_prover]
#[verifier::rlimit(60)]
proof fn lemma_after_invariant(matched: Seq<bool>, context_size: int, k: nat)
    requires
        k <= matched.len(),
        context_size >= 0,
    ensures
        after_invariant(matched, context_size, k as int, after_state(matched, context_size, k)),
    decreases k,
{
    let n = matched.len() as int;
    if k == 0 {
        assert(pass_flat(after_state(matched, context_size, 0)) =~= Seq::<int>::empty());
    } else {
        lemma_after_invariant(matched, context_size, (k - 1) as nat);
        let s = after_state(matched, context_size, (k - 1) as nat);
        let i = k - 1;
        let f0 = pass_flat(s);
        if matched[i] {
            lemma_split_keeps(s, i, context_size);
            let (done, current) = split_if_far(s.0, s.1, i, context_size);
            let pushed = i >= s.2;
            let mid = if pushed { seq![i] } else { Seq::<int>::empty() };
            let added = if pushed { i } else { s.2 };
            let end = min_int(i + context_size, n - 1);
            let lo = max_int(added, i + 1);
            let extra = index_range(lo, end + 1);
            let ns = after_state(matched, context_size, k);
            assert(ns.0 == done);
            assert(ns.2 == i + context_size + 1);
            let f1 = pass_flat(ns);
            assert(f1 =~= f0 + mid + extra);
            lemma_range(lo, end + 1);
            // s.2 is 0 or one past the window of an earlier match
            assert(s.2 <= i + context_size) by {
                if s.2 != 0 {
                    let p = choose|p: int| 0 <= p < i && #[trigger] matched[p] && s.2 == p + context_size + 1;
                }
            }
            assert forall|t: int| 0 <= t < f0.len() implies #[trigger] f0[t] < added by {
                if pushed {
                }
            }
            lemma_increasing_append(f0, mid, added);
            assert forall|t: int| 0 <= t < (f0 + mid).len() implies #[trigger] (f0 + mid)[t] < lo by {
                if t < f0.len() {
                    assert((f0 + mid)[t] == f0[t]);
                } else {
                    assert((f0 + mid)[t] == i);
                }
            }
            lemma_increasing_append(f0 + mid, extra, lo);
            assert forall|t: int| 0 <= t < f1.len() implies 0 <= #[trigger] f1[t] < n && f1[t] < ns.2
                && match_within_before(matched, k as int, f1[t], context_size) by {
                if t < f0.len() {
                    assert(f1[t] == f0[t]);
                    assert(match_within_before(matched, i, f0[t], context_size));
                    let m = choose|m: int| 0 <= m < i && #[trigger] matched[m] && m <= f0[t] <= m + context_size;
                    assert(matched[m]);
                } else if t < f0.len() + mid.len() {
                    assert(f1[t] == i);
                    assert(matched[i]);
                } else {
                    assert(f1[t] == extra[t - f0.len() - mid.len()]);
                    assert(matched[i]);
                }
            }
            assert forall|x: int| 0 <= x < n && #[trigger] match_within_before(matched, k as int, x, context_size)
                implies f1.contains(x) by {
                let m = choose|m: int| 0 <= m < k && #[trigger] matched[m] && m <= x <= m + context_size;
                if m < i {
                    assert(match_within_before(matched, i, x, context_size));
                    let t = choose|t: int| 0 <= t < f0.len() && f0[t] == x;
                    assert(f1[t] == x);
                } else if x >= lo {
                    assert(extra.contains(x));
                    let t = choose|t: int| 0 <= t < extra.len() && extra[t] == x;
                    assert(f1[f0.len() + mid.len() + t] == x);
                } else if x == i && pushed {
                    assert(f1[f0.len() as int] == x);
                } else {
                    // x lies before the first line not added yet, inside the
                    // window of the match that set it
                    let p = choose|p: int| 0 <= p < i && #[trigger] matched[p] && s.2 == p + context_size + 1;
                    assert(match_within_before(matched, i, x, context_size));
                    let t = choose|t: int| 0 <= t < f0.len() && f0[t] == x;
                    assert(f1[t] == x);
                }
            }
            assert(matched[i]);
        } else {
            assert forall|t: int| 0 <= t < f0.len() implies match_within_before(matched, k as int, #[trigger] f0[t], context_size) by {
                assert(match_within_before(matched, i, f0[t], context_size));
                let m = choose|m: int| 0 <= m < i && #[trigger] matched[m] && m <= f0[t] <= m + context_size;
                assert(matched[m]);
            }
            assert forall|x: int| 0 <= x < n && #[trigger] match_within_before(matched, k as int, x, context_size)
                implies f0.contains(x) by {
                let m = choose|m: int| 0 <= m < k && #[trigger] matched[m] && m <= x <= m + context_size;
                assert(match_within_before(matched, i, x, context_size));
            }
            if s.2 != 0 {
                let p = choose|p: int| 0 <= p < i && #[trigger] matched[p] && s.2 == p + context_size + 1;
                assert(matched[p]);
            }
        }
    }
}

/// After-context groups: no group is empty, no line is printed twice and
/// lines come in input order, and the printed lines are exactly the lines
/// of the input that lie at most `context_size` lines after a matching
/// line (matching lines included).
pub proof fn law_after_context_groups(re: (Seq<char>, bool), lines: Seq<Seq<char>>, context_size: int)
    requires
        context_size >= 0,
    ensures
        all_nonempty(after_groups(match_flags(re, lines), context_size)),
        strictly_increasing(flatten(after_groups(match_flags(re, lines), context_size))),
        forall|t: int|
            0 <= t < flatten(after_groups(match_flags(re, lines), context_size)).len() ==> {
                let j = #[trigger] flatten(after_groups(match_flags(re, lines), context_size))[t];
                0 <= j < lines.len() && match_within_before(match_flags(re, lines), lines.len() as int, j, context_size)
            },
        forall|j: int|
            0 <= j < lines.len() && #[trigger] match_within_before(match_flags(re, lines), lines.len() as int, j, context_size)
                ==> flatten(after_groups(match_flags(re, lines), context_size)).contains(j),
{
    let mf = match_flags(re, lines);
    lemma_after_invariant(mf, context_size, mf.len());
    let s = after_state(mf, context_size, mf.len());
    lemma_close_keeps(s);
}

/// The selected indices are, in increasing order, exactly the indices at
/// which the flags hold.
pub proof fn law_selected_indices(flags: Seq<bool>)
    ensures
        strictly_increasing(selected_indices(flags)),
        forall|t: int|
            0 <= t < selected_indices(flags).len() ==> {
                let i = #[trigger] selected_indices(flags)[t];
                0 <= i < flags.len() && flags[i]
            },
        forall|i: int| 0 <= i < flags.len() && #[trigger] flags[i] ==> selected_indices(flags).contains(i),
    decreases flags.len(),
{
    if flags.len() > 0 {
        let prev = flags.drop_last();
        law_selected_indices(prev);
        let sp = selected_indices(prev);
        let sel = selected_indices(flags);
        assert forall|t: int| 0 <= t < sp.len() implies #[trigger] sp[t] < flags.len() - 1 by {
            assert(prev[sp[t]] == flags[sp[t]]);
        }
        if flags.last() {
            assert(sel == sp.push(flags.len() - 1));
            lemma_increasing_append(sp, seq![flags.len() - 1], flags.len() - 1);
            assert(sp + seq![flags.len() - 1] =~= sel);
        }
        assert forall|t: int| 0 <= t < sel.len() implies {
            let i = #[trigger] sel[t];
            0 <= i < flags.len() && flags[i]
        } by {
            if t < sp.len() {
                assert(sel[t] == sp[t]);
                assert(prev[sp[t]] == flags[sp[t]]);
            }
        }
        assert forall|i: int| 0 <= i < flags.len() && #[trigger] flags[i] implies sel.contains(i) by {
            if i < flags.len() - 1 {
                assert(prev[i] == flags[i]);
                assert(sp.contains(i));
                let t = choose|t: int| 0 <= t < sp.len() && sp[t] == i;
                assert(sel[t] == i);
            } else {
                assert(sel[sel.len() - 1] == i);
            }
        }
    }
}

/// Every index is selected either by the flags or by their negation.
proof fn lemma_selected_split(flags: Seq<bool>)
    ensures
        selected_indices(flags).len() + selected_indices(flags.map_values(|b: bool| !b)).len() == flags.len(),
    decreases flags.len(),
{
    if flags.len() > 0 {
        let neg = flags.map_values(|b: bool| !b);
        assert(neg.drop_last() =~= flags.drop_last().map_values(|b: bool| !b));
        lemma_selected_split(flags.drop_last());
    }
}

/// Counting and the inverted search split the input: the number of
/// matching lines and the number of lines the inverted search prints add
/// up to the number of lines.
pub proof fn law_count_and_inverted_partition(re: (Seq<char>, bool), lines: Seq<Seq<char>>, line_number: bool)
    ensures
        match_count(re, lines) + inverted_output(re, lines, line_number).len() == lines.len(),
{
    lemma_selected_split(match_flags(re, lines));
    assert(miss_flags(re, lines) == match_flags(re, lines).map_values(|b: bool| !b));
}

/// The search without context prints one line for every matching line,
/// whatever the flags; without highlighting and line numbers those are
/// the matching lines themselves, in input order, and the inverted search
/// prints the other lines, in input order.
pub proof fn law_matches_print_matching_lines(re: (Seq<char>, bool), lines: Seq<Seq<char>>, highlight: bool, line_number: bool)
    ensures
        matches_output(re, lines, highlight, line_number).len() == match_count(re, lines),
        forall|t: int|
            0 <= t < match_count(re, lines) ==> {
                let i = #[trigger] selected_indices(match_flags(re, lines))[t];
                &&& 0 <= i < lines.len()
                &&& line_matches(re, lines[i])
                &&& matches_output(re, lines, false, false)[t] == lines[i]
            },
        forall|t: int|
            0 <= t < inverted_output(re, lines, false).len() ==> {
                let i = #[trigger] selected_indices(miss_flags(re, lines))[t];
                &&& 0 <= i < lines.len()
                &&& !line_matches(re, lines[i])
                &&& inverted_output(re, lines, false)[t] == lines[i]
            },
{
    let mf = match_flags(re, lines);
    let nf = miss_flags(re, lines);
    law_selected_indices(mf);
    law_selected_indices(nf);
    assert(mf.take(lines.len() as int) =~= mf);
    assert forall|t: int| 0 <= t < match_count(re, lines) implies {
        let i = #[trigger] selected_indices(match_flags(re, lines))[t];
        &&& 0 <= i < lines.len()
        &&& line_matches(re, lines[i])
        &&& matches_output(re, lines, false, false)[t] == lines[i]
    } by {
        let i = selected_indices(mf)[t];
        assert(mf[i]);
    }
    assert forall|t: int| 0 <= t < inverted_output(re, lines, false).len() implies {
        let i = #[trigger] selected_indices(miss_flags(re, lines))[t];
        &&& 0 <= i < lines.len()
        &&& !line_matches(re, lines[i])
        &&& inverted_output(re, lines, false)[t] == lines[i]
    } by {
        let i = selected_indices(nf)[t];
        assert(nf[i]);
        assert(nf[i] == !mf[i]);
    }
}

/// Context groups: one group for each matching line, in order; the group
/// of the matching line `m` is every line of the input from
/// `context_size` lines before `m` to `context_size` lines after it, in
/// order, so it is never empty and holds `m`.
pub proof fn law_context_groups(re: (Seq<char>, bool), lines: Seq<Seq<char>>, context_size: int)
    requires
        context_size >= 0,
    ensures
        context_groups(match_flags(re, lines), context_size).len() == match_count(re, lines),
        forall|g: int|
            0 <= g < match_count(re, lines) ==> {
                let m = selected_indices(match_flags(re, lines))[g];
                let group = #[trigger] context_groups(match_flags(re, lines), context_size)[g];
                &&& line_matches(re, lines[m])
                &&& group.contains(m)
                &&& strictly_increasing(group)
                &&& forall|t: int| 0 <= t < group.len() ==> 0 <= #[trigger] group[t] < lines.len()
                    && m - context_size <= group[t] <= m + context_size
                &&& forall|j: int| 0 <= j < lines.len() && m - context_size <= j <= m + context_size ==> group.contains(j)
            },
{
    let mf = match_flags(re, lines);
    let n = lines.len() as int;
    law_selected_indices(mf);
    assert forall|g: int| 0 <= g < match_count(re, lines) implies {
        let m = selected_indices(match_flags(re, lines))[g];
        let group = #[trigger] context_groups(match_flags(re, lines), context_size)[g];
        &&& line_matches(re, lines[m])
        &&& group.contains(m)
        &&& strictly_increasing(group)
        &&& forall|t: int| 0 <= t < group.len() ==> 0 <= #[trigger] group[t] < lines.len()
            && m - context_size <= group[t] <= m + context_size
        &&& forall|j: int| 0 <= j < lines.len() && m - context_size <= j <= m + context_size ==> group.contains(j)
    } by {
        let m = selected_indices(mf)[g];
        assert(mf[m]);
        let lo = max_int(m - context_size, 0);
        let hi = min_int(m + context_size, n - 1) + 1;
        assert(context_groups(mf, context_size)[g] == index_range(lo, hi));
        lemma_range(lo, hi);
    }
}

/// The number of entries of all groups together.
pub open spec fn total_entries<T>(groups: Seq<Seq<T>>) -> nat
    decreases groups.len(),
{
    if groups.len() == 0 {
        0
    } else {
        total_entries(groups.drop_last()) + groups.last().len()
    }
}

/// Printing groups takes one line for every entry and one separator line
/// between two consecutive groups.
pub proof fn law_render_line_count(groups: Seq<Seq<(int, Seq<char>)>>, line_number: bool, separator: Seq<char>)
    ensures
        render_groups(groups, line_number, separator).len() == total_entries(groups) + if groups.len() > 0 {
            groups.len() - 1
        } else {
            0
        },
    decreases groups.len(),
{
    if groups.len() > 0 {
        law_render_line_count(groups.drop_last(), line_number, separator);
        assert(render_group(groups.last(), line_number).len() == groups.last().len());
    }
}

/// The decimal notation of `n` is a non-empty run of digits whose value is
/// `n`.
proof fn lemma_decimal_digits(n: nat)
    ensures
        decimal(n).len() > 0,
        forall|t: int| 0 <= t < decimal(n).len() ==> is_decimal_digit(#[trigger] decimal(n)[t]),
        digits_value(decimal(n)) == n,
    decreases n,
{
    let d = n % 10;
    assert(is_decimal_digit(digit_char(d)) && (digit_char(d) as int) - ('0' as int) == d);
    if n < 10 {
        assert(decimal(n).drop_last() =~= Seq::<char>::empty());
        assert(decimal(n).last() == digit_char(d));
        assert(digits_value(decimal(n)) == digits_value(Seq::<char>::empty()) * 10 + d);
    } else {
        lemma_decimal_digits(n / 10);
        let prev = decimal(n / 10);
        assert(decimal(n).drop_last() =~= prev);
        assert(decimal(n).last() == digit_char(d));
        assert(digits_value(decimal(n)) == digits_value(prev) * 10 + d);
        assert((n / 10) * 10 + n % 10 == n);
        assert forall|t: int| 0 <= t < decimal(n).len() implies is_decimal_digit(#[trigger] decimal(n)[t]) by {
            if t < prev.len() {
                assert(decimal(n)[t] == prev[t]);
            }
        }
    }
}

/// Reading a context size back from the decimal notation of a number
/// gives the number.
pub proof fn law_parse_decimal(n: usize)
    ensures
        parsed_usize(decimal(n as nat)) == Some(n),
{
    lemma_decimal_digits(n as nat);
    assert(is_decimal_digit(decimal(n as nat)[0]));
    assert(unsigned_digits(decimal(n as nat)) == decimal(n as nat));
}

/// Some group holds both `x` and `y`.
pub open spec fn share_group(groups: Seq<Seq<int>>, x: int, y: int) -> bool {
    exists|g: int| 0 <= g < groups.len() && #[trigger] groups[g].contains(x) && groups[g].contains(y)
}

/// `p` and `i` are matching lines with no matching line between them.
pub open spec fn consecutive_matches(matched: Seq<bool>, p: int, i: int) -> bool {
    &&& 0 <= p < i < matched.len()
    &&& matched[p]
    &&& matched[i]
    &&& forall|m: int| p < m < i ==> !#[trigger] matched[m]
}

/// The closed groups and the open one, even when it is empty.
pub open spec fn open_groups(s: GroupState) -> Seq<Seq<int>> {
    s.0.push(s.1)
}

/// Every index of every group is below `bound`.
pub open spec fn groups_below(groups: Seq<Seq<int>>, bound: int) -> bool {
    forall|g: int, t: int| 0 <= g < groups.len() && 0 <= t < groups[g].len() ==> 0 <= #[trigger] groups[g][t] < bound
}

proof fn lemma_concat_contains_low(a: Seq<int>, b: Seq<int>, x: int, bound: int)
    requires
        forall|t: int| 0 <= t < b.len() ==> #[trigger] b[t] >= bound,
        x < bound,
    ensures
        (a + b).contains(x) <==> a.contains(x),
{
    if (a + b).contains(x) {
        let t = choose|t: int| 0 <= t < (a + b).len() && (a + b)[t] == x;
        if t >= a.len() {
            assert((a + b)[t] == b[t - a.len()]);
        } else {
            assert((a + b)[t] == a[t]);
        }
    }
    if a.contains(x) {
        let t = choose|t: int| 0 <= t < a.len() && a[t] == x;
        assert((a + b)[t] == x);
    }
}

proof fn lemma_contains_below(a: Seq<int>, x: int, bound: int)
    requires
        forall|t: int| 0 <= t < a.len() ==> #[trigger] a[t] < bound,
        a.contains(x),
    ensures
        x < bound,
{
    let t = choose|t: int| 0 <= t < a.len() && a[t] == x;
}

proof fn lemma_contains_above(a: Seq<int>, x: int, bound: int)
    requires
        forall|t: int| 0 <= t < a.len() ==> #[trigger] a[t] >= bound,
        a.contains(x),
    ensures
        x >= bound,
{
    let t = choose|t: int| 0 <= t < a.len() && a[t] == x;
}

/// What the before-context pass over the first `k` lines knows of the
/// last matching line, of its groups and of the lines it covers.
pub open spec fn before_structure(matched: Seq<bool>, context_size: int, k: int, s: GroupState) -> bool {
    let o = open_groups(s);
    &&& s.2 == 0 ==> s.0.len() == 0 && s.1.len() == 0 && forall|m: int| 0 <= m < k ==> !#[trigger] matched[m]
    &&& s.2 > 0 ==> {
        &&& matched[s.2 - 1]
        &&& s.1.len() > 0
        &&& s.1.last() == s.2 - 1
        &&& forall|m: int| s.2 - 1 < m < k ==> !#[trigger] matched[m]
    }
    &&& groups_below(o, s.2)
    &&& forall|x: int| 0 <= x && #[trigger] match_within_after(matched, k, x, context_size) ==> pass_flat(s).contains(x)
    &&& forall|p: int, i: int|
        #![trigger consecutive_matches(matched, p, i)]
        consecutive_matches(matched, p, i) && i < k ==> (share_group(o, p, i) <==> i <= p + context_size)
}

/// The indices the before-context step at line `i` adds.
pub open spec fn before_added(s: GroupState, i: int, context_size: int) -> Seq<int> {
    index_range(max_int(max_int(i - context_size, 0), s.2), i).push(i)
}

proof fn lemma_before_added(s: GroupState, i: int, context_size: int)
    requires
        context_size >= 0,
        0 <= s.2 <= i,
    ensures
        forall|t: int| 0 <= t < before_added(s, i, context_size).len() ==> {
            let a = #[trigger] before_added(s, i, context_size)[t];
            s.2 <= a <= i && a >= 0 && a >= i - context_size
        },
        before_added(s, i, context_size).last() == i,
        forall|x: int| max_int(max_int(i - context_size, 0), s.2) <= x <= i ==> before_added(s, i, context_size).contains(x),
        strictly_increasing(before_added(s, i, context_size)),
{
    let start = max_int(max_int(i - context_size, 0), s.2);
    let range = index_range(start, i);
    let added = before_added(s, i, context_size);
    lemma_range(start, i);
    assert forall|t: int| 0 <= t < added.len() implies {
        let a = #[trigger] added[t];
        s.2 <= a <= i && a >= 0 && a >= i - context_size
    } by {
        if t < range.len() {
            assert(added[t] == range[t]);
        }
    }
    assert forall|x: int| start <= x <= i implies added.contains(x) by {
        if x == i {
            assert(added[added.len() - 1] == i);
        } else {
            assert(added[x - start] == range[x - start]);
        }
    }
    assert forall|x: int, y: int| 0 <= x < y < added.len() implies added[x] < added[y] by {
        assert(added[x] == range[x]);
        if y < range.len() {
            assert(added[y] == range[y]);
        }
    }
}

/// How the groups change at a before-context step.
#[verifier::spinoff_prover]
proof fn lemma_before_step_groups(s: GroupState, i: int, context_size: int)
    requires
        context_size >= 0,
        0 <= s.2 <= i,
        groups_below(open_groups(s), s.2),
        s.2 > 0 ==> s.1.len() > 0 && s.1.last() == s.2 - 1,
        s.2 == 0 ==> s.1.len() == 0,
    ensures
        ({
            let ns = before_step(s, i, context_size);
            let o = open_groups(s);
            let o1 = open_groups(ns);
            &&& groups_below(o1, i + 1)
            &&& forall|g: int, x: int|
                0 <= g < o1.len() && x < s.2 ==> (#[trigger] o1[g].contains(x) <==> (g < o.len() && o[g].contains(x)))
            &&& ns.1.len() > 0
            &&& ns.1.last() == i
            &&& ns.2 == i + 1
            &&& s.2 > 0 && i <= s.2 - 1 + context_size ==> o1[o.len() - 1].contains(s.2 - 1) && o1[o.len() - 1].contains(i)
            &&& s.2 > 0 && i > s.2 - 1 + context_size ==> forall|g: int|
                0 <= g < o1.len() && #[trigger] o1[g].contains(i) ==> !o1[g].contains(s.2 - 1)
        }),
{
    let ns = before_step(s, i, context_size);
    let o = open_groups(s);
    let o1 = open_groups(ns);
    let added = before_added(s, i, context_size);
    lemma_before_added(s, i, context_size);
    let split = s.1.len() > 0 && s.1.last() + context_size < i;
    if split {
        assert(Seq::<int>::empty() + added =~= added);
        assert(ns == (s.0.push(s.1), added, i + 1));
        assert(o1 =~= o.push(added));
    } else {
        assert(ns == (s.0, s.1 + added, i + 1));
        assert(o1 =~= s.0.push(s.1 + added));
        assert(o1[o.len() - 1] == o[o.len() - 1] + added);
    }
    assert forall|g: int, x: int| 0 <= g < o1.len() && x < s.2 implies
        (#[trigger] o1[g].contains(x) <==> (g < o.len() && o[g].contains(x))) by {
        if split {
            if g == o.len() {
                if o1[g].contains(x) {
                    lemma_contains_above(added, x, s.2);
                }
            } else {
                assert(o1[g] == o[g]);
            }
        } else {
            if g == o.len() - 1 {
                lemma_concat_contains_low(o[g], added, x, s.2);
            } else {
                assert(o1[g] == o[g]);
            }
        }
    }
    assert forall|g: int, t: int| 0 <= g < o1.len() && 0 <= t < o1[g].len() implies 0 <= #[trigger] o1[g][t] < i + 1 by {
        if split {
            if g < o.len() {
                assert(o1[g] == o[g]);
            } else {
                assert(o1[g] == added);
            }
        } else {
            if g < o.len() - 1 {
                assert(o1[g] == o[g]);
            } else {
                if t >= o[g].len() {
                    assert(o1[g][t] == added[t - o[g].len()]);
                } else {
                    assert(o1[g][t] == o[g][t]);
                }
            }
        }
    }
    assert(ns.1[ns.1.len() - 1] == i) by {
        if !split {
            assert(ns.1 == s.1 + added);
            assert((s.1 + added)[(s.1 + added).len() - 1] == added[added.len() - 1]);
        }
    }
    if s.2 > 0 && i <= s.2 - 1 + context_size {
        assert(!split);
        let g = o.len() - 1;
        assert(o[g] == s.1);
        assert((s.1 + added)[s.1.len() - 1] == s.2 - 1);
        assert((s.1 + added)[(s.1 + added).len() - 1] == i);
    }
    if s.2 > 0 && i > s.2 - 1 + context_size {
        assert(split);
        assert forall|g: int| 0 <= g < o1.len() && #[trigger] o1[g].contains(i) implies !o1[g].contains(s.2 - 1) by {
            if g < o.len() {
                assert(o1[g] == o[g]);
                assert forall|t: int| 0 <= t < o[g].len() implies #[trigger] o[g][t] < s.2 by {}
                lemma_contains_below(o[g], i, s.2);
            } else {
                assert(o1[g] == added);
                if added.contains(s.2 - 1) {
                    lemma_contains_above(added, s.2 - 1, s.2);
                }
            }
        }
    }
}

#[verifier::spinoff_prover]
#[verifier::rlimit(40)]
proof fn lemma_before_structure(matched: Seq<bool>, context_size: int, k: nat)
    requires
        k <= matched.len(),
        context_size >= 0,
    ensures
        before_structure(matched, context_size, k as int, before_state(matched, context_size, k)),
    decreases k,
{
    if k == 0 {
        assert(pass_flat(before_state(matched, context_size, 0)) =~= Seq::<int>::empty());
        let o = open_groups(before_state(matched, context_size, 0));
        assert(o =~= seq![Seq::<int>::empty()]);
    } else {
        lemma_before_structure(matched, context_size, (k - 1) as nat);
        lemma_before_invariant(matched, context_size, (k - 1) as nat);
        let s = before_state(matched, context_size, (k - 1) as nat);
        let i = k - 1;
        let o = open_groups(s);
        let f0 = pass_flat(s);
        if matched[i] {
            let ns = before_state(matched, context_size, k);
            assert(ns == before_step(s, i, context_size));
            let o1 = open_groups(ns);
            lemma_before_step_groups(s, i, context_size);
            let added = before_added(s, i, context_size);
            lemma_before_added(s, i, context_size);
            lemma_split_keeps(s, i, context_size);
            let f1 = pass_flat(ns);
            let split = split_if_far(s.0, s.1, i, context_size);
            assert(ns == (split.0, split.1 + added, i + 1));
            assert(f1 =~= f0 + added);
            // coverage
            assert forall|x: int| 0 <= x && #[trigger] match_within_after(matched, k as int, x, context_size)
                implies f1.contains(x) by {
                let m = choose|m: int| 0 <= m < k && #[trigger] matched[m] && x <= m <= x + context_size;
                if m < i || x < max_int(max_int(i - context_size, 0), s.2) {
                    if m >= i {
                        assert(matched[s.2 - 1]);
                    }
                    assert(match_within_after(matched, i, x, context_size));
                    let t = choose|t: int| 0 <= t < f0.len() && f0[t] == x;
                    assert(f1[t] == x);
                } else {
                    assert(added.contains(x));
                    let t = choose|t: int| 0 <= t < added.len() && added[t] == x;
                    assert(f1[f0.len() + t] == x);
                }
            }
            // consecutive pairs
            assert forall|p: int, j: int|
                #![trigger consecutive_matches(matched, p, j)]
                consecutive_matches(matched, p, j) && j < k implies (share_group(o1, p, j) <==> j <= p + context_size) by {
                if j < i {
                    assert(matched[j]);
                    assert(j < s.2);
                    if share_group(o1, p, j) {
                        let g = choose|g: int| 0 <= g < o1.len() && #[trigger] o1[g].contains(p) && o1[g].contains(j);
                        assert(o1[g].contains(p) ==> g < o.len() && o[g].contains(p));
                        assert(o[g].contains(p));
                    }
                    if share_group(o, p, j) {
                        let g = choose|g: int| 0 <= g < o.len() && #[trigger] o[g].contains(p) && o[g].contains(j);
                        assert(o1[g].contains(p) && o1[g].contains(j));
                    }
                } else {
                    assert(s.2 > 0);
                    assert(p == s.2 - 1) by {
                        if p < s.2 - 1 {
                            assert(matched[s.2 - 1]);
                        }
                    }
                    if j <= p + context_size {
                        assert(o1[o.len() - 1].contains(p));
                    } else if share_group(o1, p, j) {
                        let g = choose|g: int| 0 <= g < o1.len() && #[trigger] o1[g].contains(p) && o1[g].contains(j);
                        assert(o1[g].contains(i));
                    }
                }
            }
        } else {
            let ns = before_state(matched, context_size, k);
            assert(ns == s);
            assert forall|x: int| 0 <= x && #[trigger] match_within_after(matched, k as int, x, context_size)
                implies f0.contains(x) by {
                let m = choose|m: int| 0 <= m < k && #[trigger] matched[m] && x <= m <= x + context_size;
                assert(match_within_after(matched, i, x, context_size));
            }
        }
    }
}

/// Before-context grouping: two matching lines with no matching line
/// between them are printed in the same group exactly when the second is
/// at most `context_size` lines after the first.
pub proof fn law_before_context_split(re: (Seq<char>, bool), lines: Seq<Seq<char>>, context_size: int)
    requires
        context_size >= 0,
    ensures
        forall|p: int, i: int|
            #![trigger consecutive_matches(match_flags(re, lines), p, i)]
            consecutive_matches(match_flags(re, lines), p, i) ==> (share_group(
                before_groups(match_flags(re, lines), context_size),
                p,
                i,
            ) <==> i <= p + context_size),
{
    let mf = match_flags(re, lines);
    lemma_before_invariant(mf, context_size, mf.len());
    lemma_before_structure(mf, context_size, mf.len());
    let s = before_state(mf, context_size, mf.len());
    lemma_close_keeps(s);
    assert forall|p: int, i: int|
        #![trigger consecutive_matches(mf, p, i)]
        consecutive_matches(mf, p, i) implies (share_group(before_groups(mf, context_size), p, i)
            <==> i <= p + context_size) by {
        assert(s.2 > 0);
        assert(before_groups(mf, context_size) == open_groups(s));
    }
}

/// What the after-context pass over the first `k` lines knows of the last
/// matching line and of its groups.
pub open spec fn after_structure(matched: Seq<bool>, context_size: int, k: int, s: GroupState) -> bool {
    let o = open_groups(s);
    let n = matched.len() as int;
    let p = s.2 - context_size - 1;
    &&& s.2 == 0 ==> s.0.len() == 0 && s.1.len() == 0 && forall|m: int| 0 <= m < k ==> !#[trigger] matched[m]
    &&& s.2 > 0 ==> {
        &&& 0 <= p < k
        &&& matched[p]
        &&& forall|m: int| p < m < k ==> !#[trigger] matched[m]
        &&& s.1.len() > 0
        &&& s.1.last() == min_int(p + context_size, n - 1)
        &&& forall|x: int| p <= x <= min_int(p + context_size, n - 1) ==> #[trigger] s.1.contains(x)
    }
    &&& groups_below(o, s.2)
    &&& forall|q: int, i: int|
        #![trigger consecutive_matches(matched, q, i)]
        consecutive_matches(matched, q, i) && i < k ==> (share_group(o, q, i) <==> i <= q + 2 * context_size)
}

/// How the groups change at an after-context step.
#[verifier::spinoff_prover]
#[verifier::rlimit(40)]
proof fn lemma_after_step_groups(s: GroupState, i: int, context_size: int, n: int)
    requires
        context_size >= 0,
        0 <= i < n,
        s.2 >= 0,
        groups_below(open_groups(s), s.2),
        s.2 == 0 ==> s.1.len() == 0,
        s.2 > 0 ==> {
            let p = s.2 - context_size - 1;
            &&& 0 <= p < i
            &&& s.1.len() > 0
            &&& s.1.last() == min_int(p + context_size, n - 1)
            &&& forall|x: int| p <= x <= min_int(p + context_size, n - 1) ==> #[trigger] s.1.contains(x)
        },
    ensures
        ({
            let ns = after_step(s, i, context_size, n);
            let o = open_groups(s);
            let o1 = open_groups(ns);
            let p = s.2 - context_size - 1;
            &&& ns.2 == i + context_size + 1
            &&& groups_below(o1, ns.2)
            &&& forall|g: int, x: int|
                0 <= g < o1.len() && x < s.2 ==> (#[trigger] o1[g].contains(x) <==> (g < o.len() && o[g].contains(x)))
            &&& ns.1.len() > 0
            &&& ns.1.last() == min_int(i + context_size, n - 1)
            &&& forall|x: int| i <= x <= min_int(i + context_size, n - 1) ==> #[trigger] ns.1.contains(x)
            &&& s.2 > 0 && i <= p + 2 * context_size ==> o1[o.len() - 1].contains(p) && o1[o.len() - 1].contains(i)
            &&& s.2 > 0 && i > p + 2 * context_size ==> forall|g: int|
                0 <= g < o1.len() && #[trigger] o1[g].contains(i) ==> !o1[g].contains(p)
        }),
{
    let ns = after_step(s, i, context_size, n);
    let o = open_groups(s);
    let o1 = open_groups(ns);
    let p = s.2 - context_size - 1;
    let split = s.1.len() > 0 && s.1.last() + context_size < i;
    let pushed = i >= s.2;
    let added = if pushed { i } else { s.2 };
    let end = min_int(i + context_size, n - 1);
    let lo = max_int(added, i + 1);
    let extra = index_range(lo, end + 1);
    lemma_range(lo, end + 1);
    let cur = if split { Seq::<int>::empty() } else { s.1 };
    let cur2 = if pushed { cur.push(i) } else { cur };
    assert(ns == (if split { s.0.push(s.1) } else { s.0 }, cur2 + extra, i + context_size + 1));
    assert(split ==> pushed);
    assert(s.2 > 0 ==> (split <==> i > p + 2 * context_size));
    if split {
        assert(o1 =~= o.push(cur2 + extra));
    } else {
        assert(o1 =~= s.0.push(cur2 + extra));
    }
    // what the step adds lies at or above s.2
    let fresh = if pushed { seq![i] + extra } else { extra };
    assert forall|t: int| 0 <= t < fresh.len() implies #[trigger] fresh[t] >= s.2 && fresh[t] >= i && fresh[t] <= end by {
        if pushed && t == 0 {
        } else if pushed {
            assert(fresh[t] == extra[t - 1]);
        }
    }
    assert(cur2 + extra =~= cur + fresh);
    assert forall|g: int, x: int| 0 <= g < o1.len() && x < s.2 implies
        (#[trigger] o1[g].contains(x) <==> (g < o.len() && o[g].contains(x))) by {
        if split {
            if g == o.len() {
                assert(o1[g] =~= Seq::<int>::empty() + fresh);
                if o1[g].contains(x) {
                    lemma_concat_contains_low(Seq::<int>::empty(), fresh, x, s.2);
                }
            } else {
                assert(o1[g] == o[g]);
            }
        } else {
            if g == o.len() - 1 {
                assert(o1[g] == s.1 + fresh);
                lemma_concat_contains_low(s.1, fresh, x, s.2);
            } else {
                assert(o1[g] == o[g]);
            }
        }
    }
    assert forall|g: int, t: int| 0 <= g < o1.len() && 0 <= t < o1[g].len() implies 0 <= #[trigger] o1[g][t] < ns.2 by {
        let last: int = if split { o.len() as int } else { o.len() - 1 };
        if g < last {
            assert(o1[g] == o[g]);
        } else {
            assert(o1[g] == cur + fresh);
            if t >= cur.len() {
                assert(o1[g][t] == fresh[t - cur.len()]);
            } else {
                assert(o1[g][t] == o[g][t]);
            }
        }
    }
    // the open group covers the window of line i and ends with its end
    assert forall|x: int| i <= x <= end implies #[trigger] ns.1.contains(x) by {
        if x >= lo {
            let t = x - lo;
            assert(extra[t] == x);
            assert(ns.1[cur2.len() + t] == x);
        } else if x == i && pushed {
            assert(ns.1[cur.len() as int] == i);
        } else {
            assert(!pushed);
            assert(s.1.contains(x));
            let t = choose|t: int| 0 <= t < s.1.len() && s.1[t] == x;
            assert(ns.1[t] == x);
        }
    }
    if lo <= end {
        assert(ns.1.last() == extra.last());
        assert(extra[extra.len() - 1] == end);
    } else if pushed {
        assert(extra =~= Seq::<int>::empty());
        assert(ns.1 =~= cur2);
    } else {
        assert(extra =~= Seq::<int>::empty());
        assert(ns.1 =~= s.1);
    }
    if s.2 > 0 && i <= p + 2 * context_size {
        assert(!split);
        let g = o.len() - 1;
        assert(o1[g] == s.1 + fresh);
        assert(s.1.contains(p));
        let tp = choose|t: int| 0 <= t < s.1.len() && s.1[t] == p;
        assert(o1[g][tp] == p);
        assert(o1[g] == ns.1);
    }
    if s.2 > 0 && i > p + 2 * context_size {
        assert forall|g: int| 0 <= g < o1.len() && #[trigger] o1[g].contains(i) implies !o1[g].contains(p) by {
            if g < o.len() {
                assert(o1[g] == o[g]);
                assert forall|t: int| 0 <= t < o[g].len() implies #[trigger] o[g][t] < s.2 by {}
                lemma_contains_below(o[g], i, s.2);
            } else {
                assert(o1[g] =~= Seq::<int>::empty() + fresh);
                if o1[g].contains(p) {
                    lemma_concat_contains_low(Seq::<int>::empty(), fresh, p, s.2);
                }
            }
        }
    }
}

#[verifier::spinoff_prover]
#[verifier::rlimit(40)]
proof fn lemma_after_structure(matched: Seq<bool>, context_size: int, k: nat)
    requires
        k <= matched.len(),
        context_size >= 0,
    ensures
        after_structure(matched, context_size, k as int, after_state(matched, context_size, k)),
    decreases k,
{
    let n = matched.len() as int;
    if k == 0 {
        let o = open_groups(after_state(matched, context_size, 0));
        assert(o =~= seq![Seq::<int>::empty()]);
    } else {
        lemma_after_structure(matched, context_size, (k - 1) as nat);
        lemma_after_state_within(matched, context_size, (k - 1) as nat);
        let s = after_state(matched, context_size, (k - 1) as nat);
        let i = k - 1;
        let o = open_groups(s);
        let p = s.2 - context_size - 1;
        if matched[i] {
            let ns = after_state(matched, context_size, k);
            assert(ns == after_step(s, i, context_size, n));
            let o1 = open_groups(ns);
            lemma_after_step_groups(s, i, context_size, n);
            assert forall|q: int, j: int|
                #![trigger consecutive_matches(matched, q, j)]
                consecutive_matches(matched, q, j) && j < k implies (share_group(o1, q, j) <==> j <= q + 2 * context_size) by {
                if j < i {
                    assert(matched[j]);
                    assert(j < s.2);
                    if share_group(o1, q, j) {
                        let g = choose|g: int| 0 <= g < o1.len() && #[trigger] o1[g].contains(q) && o1[g].contains(j);
                        assert(o1[g].contains(q) ==> g < o.len() && o[g].contains(q));
                        assert(o[g].contains(q));
                    }
                    if share_group(o, q, j) {
                        let g = choose|g: int| 0 <= g < o.len() && #[trigger] o[g].contains(q) && o[g].contains(j);
                        assert(o1[g].contains(q) && o1[g].contains(j));
                    }
                } else {
                    assert(s.2 > 0);
                    assert(q == p) by {
                        if q < p {
                            assert(matched[p]);
                        }
                    }
                    if j <= q + 2 * context_size {
                        assert(o1[o.len() - 1].contains(q));
                    } else if share_group(o1, q, j) {
                        let g = choose|g: int| 0 <= g < o1.len() && #[trigger] o1[g].contains(q) && o1[g].contains(j);
                        assert(o1[g].contains(i));
                    }
                }
            }
        } else {
            let ns = after_state(matched, context_size, k);
            assert(ns == s);
        }
    }
}

/// After-context grouping: two matching lines with no matching line
/// between them are printed in the same group exactly when the second is
/// at most twice `context_size` lines after the first.
pub proof fn law_after_context_split(re: (Seq<char>, bool), lines: Seq<Seq<char>>, context_size: int)
    requires
        context_size >= 0,
    ensures
        forall|p: int, i: int|
            #![trigger consecutive_matches(match_flags(re, lines), p, i)]
            consecutive_matches(match_flags(re, lines), p, i) ==> (share_group(
                after_groups(match_flags(re, lines), context_size),
                p,
                i,
            ) <==> i <= p + 2 * context_size),
{
    let mf = match_flags(re, lines);
    lemma_after_structure(mf, context_size, mf.len());
    lemma_after_state_within(mf, context_size, mf.len());
    let s = after_state(mf, context_size, mf.len());
    assert forall|p: int, i: int|
        #![trigger consecutive_matches(mf, p, i)]
        consecutive_matches(mf, p, i) implies (share_group(after_groups(mf, context_size), p, i)
            <==> i <= p + 2 * context_size) by {
        assert(mf[p]);
        assert(s.2 > 0);
        assert(after_groups(mf, context_size) == open_groups(s));
    }
}

/// Where group `g` starts among the printed lines: after every earlier
/// group and one separator line before each group but the first.
pub open spec fn group_offset<T>(groups: Seq<Seq<T>>, g: int) -> int
    decreases g,
{
    if g <= 0 {
        0
    } else {
        group_offset(groups, g - 1) + groups[g - 1].len() + 1
    }
}

/// How many lines printing the groups takes: the last group's offset and
/// its length, or nothing when there is no group.
pub open spec fn printed_length<T>(groups: Seq<Seq<T>>) -> int {
    if groups.len() == 0 {
        0
    } else {
        group_offset(groups, groups.len() - 1) + groups.last().len()
    }
}

/// The line shown for line `j` of the input: its 1-based number when line
/// numbers are on, then the line, with its matches in red when
/// highlighting is on.
pub open spec fn shown_line(
    re: (Seq<char>, bool),
    lines: Seq<Seq<char>>,
    j: int,
    highlight: bool,
    line_number: bool,
) -> Seq<char> {
    (if line_number {
        line_number_prefix((j + 1) as nat)
    } else {
        Seq::empty()
    }) + (if highlight {
        highlighted(re, lines[j])
    } else {
        lines[j]
    })
}

proof fn lemma_offset_nonneg<T>(groups: Seq<Seq<T>>, g: int)
    ensures
        group_offset(groups, g) >= 0,
    decreases g,
{
    if g > 0 {
        lemma_offset_nonneg(groups, g - 1);
    }
}

proof fn lemma_offset_drop_last<T>(groups: Seq<Seq<T>>, g: int)
    requires
        0 <= g < groups.len(),
    ensures
        group_offset(groups.drop_last(), g) == group_offset(groups, g),
    decreases g,
{
    if g > 0 {
        lemma_offset_drop_last(groups, g - 1);
        assert(groups.drop_last()[g - 1] == groups[g - 1]);
    }
}

proof fn lemma_offset_same_lengths<A, B>(a: Seq<Seq<A>>, b: Seq<Seq<B>>, g: int)
    requires
        0 <= g <= a.len(),
        a.len() == b.len(),
        forall|h: int| 0 <= h < a.len() ==> #[trigger] a[h].len() == b[h].len(),
    ensures
        group_offset(a, g) == group_offset(b, g),
    decreases g,
{
    if g > 0 {
        lemma_offset_same_lengths(a, b, g - 1);
        assert(a[g - 1].len() == b[g - 1].len());
    }
}

/// An entry as printed: its 1-based line number when line numbers are on,
/// then its text.
pub open spec fn entry_printed(e: (int, Seq<char>), line_number: bool) -> Seq<char> {
    (if line_number {
        line_number_prefix((e.0 + 1) as nat)
    } else {
        Seq::empty()
    }) + e.1
}

/// Printing groups lays them out in order: group `g` occupies the lines
/// from `group_offset(groups, g)` on, each entry on its own line after its
/// 1-based number when line numbers are on, and the separator in yellow
/// stands on the line just before every group but the first.
pub proof fn law_render_layout(groups: Seq<Seq<(int, Seq<char>)>>, line_number: bool, separator: Seq<char>)
    ensures
        render_groups(groups, line_number, separator).len() == printed_length(groups),
        forall|g: int|
            0 <= g < groups.len() ==> 0 <= #[trigger] group_offset(groups, g) && group_offset(groups, g)
                + groups[g].len() <= printed_length(groups),
        forall|g: int, t: int|
            0 <= g < groups.len() && 0 <= t < groups[g].len() ==> render_groups(groups, line_number, separator)[
                group_offset(groups, g) + t] == entry_printed(#[trigger] groups[g][t], line_number),
        forall|g: int|
            0 < g < groups.len() ==> {
                &&& 0 <= #[trigger] group_offset(groups, g) - 1 < printed_length(groups)
                &&& render_groups(groups, line_number, separator)[group_offset(groups, g) - 1] == colored(
                    Colors::Yellow,
                    separator,
                )
            },
    decreases groups.len(),
{
    let n = groups.len() as int;
    if n > 0 {
        let prev = groups.drop_last();
        law_render_layout(prev, line_number, separator);
        let r = render_groups(prev, line_number, separator);
        let mid: Seq<Seq<char>> = if n > 1 { seq![colored(Colors::Yellow, separator)] } else { Seq::empty() };
        let last = render_group(groups.last(), line_number);
        let all = render_groups(groups, line_number, separator);
        assert(all =~= r + mid + last);
        if n > 1 {
            lemma_offset_drop_last(groups, n - 2);
            assert(prev.last() == groups[n - 2]);
        }
        assert(group_offset(groups, n - 1) == r.len() + mid.len());
        assert(last.len() == groups.last().len());
        assert(printed_length(groups) == r.len() + mid.len() + last.len());
        assert forall|g: int, t: int| 0 <= g < groups.len() && 0 <= t < groups[g].len() implies all[
            group_offset(groups, g) + t] == entry_printed(#[trigger] groups[g][t], line_number) by {
            let e = groups[g][t];
            let pre = if line_number { line_number_prefix((e.0 + 1) as nat) } else { Seq::<char>::empty() };
            lemma_offset_nonneg(groups, g);
            if g < n - 1 {
                lemma_offset_drop_last(groups, g);
                assert(prev[g] == groups[g]);
                assert(prev[g][t] == e);
                assert(all[group_offset(groups, g) + t] == r[group_offset(prev, g) + t]);
            } else {
                assert(all[group_offset(groups, g) + t] == last[t]);
                if !line_number {
                    assert(pre + e.1 =~= e.1);
                }
            }
            assert(all[group_offset(groups, g) + t] == pre + e.1);
            assert(entry_printed(e, line_number) == pre + e.1);
        }
        assert forall|g: int| 0 <= g < groups.len() implies 0 <= #[trigger] group_offset(groups, g)
            && group_offset(groups, g) + groups[g].len() <= printed_length(groups) by {
            lemma_offset_nonneg(groups, g);
            if g < n - 1 {
                lemma_offset_drop_last(groups, g);
                assert(prev[g] == groups[g]);
                assert(group_offset(prev, g) + prev[g].len() <= printed_length(prev));
            }
        }
        assert forall|g: int| 0 < g < groups.len() implies {
            &&& 0 <= #[trigger] group_offset(groups, g) - 1 < printed_length(groups)
            &&& all[group_offset(groups, g) - 1] == colored(Colors::Yellow, separator)
        } by {
            if g < n - 1 {
                lemma_offset_drop_last(groups, g);
                assert(all[group_offset(groups, g) - 1] == r[group_offset(prev, g) - 1]);
            } else {
                assert(all[group_offset(groups, g) - 1] == mid[0]);
            }
        }
    }
}

/// The layout of groups of line indices printed with the text of each line.
proof fn lemma_indexed_layout(
    groups: Seq<Seq<int>>,
    text: spec_fn(int) -> Seq<char>,
    line_number: bool,
    separator: Seq<char>,
)
    ensures
        render_groups(groups_with_text(groups, text), line_number, separator).len() == printed_length(groups),
        forall|g: int, t: int|
            0 <= g < groups.len() && 0 <= t < groups[g].len() ==> {
                let j = #[trigger] groups[g][t];
                render_groups(groups_with_text(groups, text), line_number, separator)[group_offset(groups, g) + t]
                    == (if line_number {
                    line_number_prefix((j + 1) as nat)
                } else {
                    Seq::empty()
                }) + text(j)
            },
        forall|g: int|
            0 < g < groups.len() ==> render_groups(groups_with_text(groups, text), line_number, separator)[
                #[trigger] group_offset(groups, g) - 1] == colored(Colors::Yellow, separator),
{
    let w = groups_with_text(groups, text);
    law_render_layout(w, line_number, separator);
    assert(w.len() == groups.len());
    assert forall|h: int| 0 <= h < w.len() implies #[trigger] w[h].len() == groups[h].len() by {
        assert(w[h] == with_text(groups[h], text));
    }
    assert forall|g: int| 0 <= g <= groups.len() implies group_offset(w, g) == group_offset(groups, g) by {
        lemma_offset_same_lengths(w, groups, g);
    }
    if groups.len() > 0 {
        assert(w.last().len() == groups.last().len());
    }
    assert forall|g: int, t: int| 0 <= g < groups.len() && 0 <= t < groups[g].len() implies {
        let j = #[trigger] groups[g][t];
        render_groups(w, line_number, separator)[group_offset(groups, g) + t] == (if line_number {
            line_number_prefix((j + 1) as nat)
        } else {
            Seq::empty()
        }) + text(j)
    } by {
        assert(w[g] == with_text(groups[g], text));
        assert(w[g][t] == (groups[g][t], text(groups[g][t])));
        assert(group_offset(w, g) == group_offset(groups, g));
        assert(render_groups(w, line_number, separator)[group_offset(w, g) + t] == entry_printed(w[g][t], line_number));
    }
    assert forall|g: int| 0 < g < groups.len() implies render_groups(w, line_number, separator)[
        #[trigger] group_offset(groups, g) - 1] == colored(Colors::Yellow, separator) by {
        assert(group_offset(w, g) == group_offset(groups, g));
    }
}

proof fn lemma_context_text(re: (Seq<char>, bool), lines: Seq<Seq<char>>, highlight: bool, line_number: bool, j: int)
    ensures
        (if line_number {
            line_number_prefix((j + 1) as nat)
        } else {
            Seq::empty()
        }) + context_text(re, lines, highlight)(j) == shown_line(re, lines, j, highlight, line_number),
{
}

/// Before-context output: the groups of `before_groups` printed in order,
/// every entry `j` as `shown_line` of line `j` (numbered exactly when line
/// numbers are on, highlighted exactly when highlighting is on), and the
/// given separator in yellow before every group but the first.
pub proof fn law_before_context_output(
    re: (Seq<char>, bool),
    lines: Seq<Seq<char>>,
    context_size: int,
    highlight: bool,
    line_number: bool,
    separator: Seq<char>,
)
    ensures
        before_context_output(re, lines, context_size, highlight, line_number, separator).len() == printed_length(
            before_groups(match_flags(re, lines), context_size),
        ),
        forall|g: int, t: int|
            0 <= g < before_groups(match_flags(re, lines), context_size).len() && 0 <= t
                < before_groups(match_flags(re, lines), context_size)[g].len() ==> before_context_output(
                re,
                lines,
                context_size,
                highlight,
                line_number,
                separator,
            )[group_offset(before_groups(match_flags(re, lines), context_size), g) + t] == shown_line(
                re,
                lines,
                #[trigger] before_groups(match_flags(re, lines), context_size)[g][t],
                highlight,
                line_number,
            ),
        forall|g: int|
            0 < g < before_groups(match_flags(re, lines), context_size).len() ==> before_context_output(
                re,
                lines,
                context_size,
                highlight,
                line_number,
                separator,
            )[#[trigger] group_offset(before_groups(match_flags(re, lines), context_size), g) - 1] == colored(
                Colors::Yellow,
                separator,
            ),
{
    let gs = before_groups(match_flags(re, lines), context_size);
    lemma_indexed_layout(gs, context_text(re, lines, highlight), line_number, separator);
    assert forall|j: int| true implies (if line_number {
        line_number_prefix((j + 1) as nat)
    } else {
        Seq::empty()
    }) + #[trigger] context_text(re, lines, highlight)(j) == shown_line(re, lines, j, highlight, line_number) by {
        lemma_context_text(re, lines, highlight, line_number, j);
    }
}

/// After-context output: the groups of `after_groups` printed in order,
/// every entry `j` as `shown_line` of line `j`, and the given separator in
/// yellow before every group but the first.
pub proof fn law_after_context_output(
    re: (Seq<char>, bool),
    lines: Seq<Seq<char>>,
    context_size: int,
    highlight: bool,
    line_number: bool,
    separator: Seq<char>,
)
    ensures
        after_context_output(re, lines, context_size, highlight, line_number, separator).len() == printed_length(
            after_groups(match_flags(re, lines), context_size),
        ),
        forall|g: int, t: int|
            0 <= g < after_groups(match_flags(re, lines), context_size).len() && 0 <= t
                < after_groups(match_flags(re, lines), context_size)[g].len() ==> after_context_output(
                re,
                lines,
                context_size,
                highlight,
                line_number,
                separator,
            )[group_offset(after_groups(match_flags(re, lines), context_size), g) + t] == shown_line(
                re,
                lines,
                #[trigger] after_groups(match_flags(re, lines), context_size)[g][t],
                highlight,
                line_number,
            ),
        forall|g: int|
            0 < g < after_groups(match_flags(re, lines), context_size).len() ==> after_context_output(
                re,
                lines,
                context_size,
                highlight,
                line_number,
                separator,
            )[#[trigger] group_offset(after_groups(match_flags(re, lines), context_size), g) - 1] == colored(
                Colors::Yellow,
                separator,
            ),
{
    let gs = after_groups(match_flags(re, lines), context_size);
    lemma_indexed_layout(gs, context_text(re, lines, highlight), line_number, separator);
    assert forall|j: int| true implies (if line_number {
        line_number_prefix((j + 1) as nat)
    } else {
        Seq::empty()
    }) + #[trigger] context_text(re, lines, highlight)(j) == shown_line(re, lines, j, highlight, line_number) by {
        lemma_context_text(re, lines, highlight, line_number, j);
    }
}

/// Output of the search with context on both sides: the groups of
/// `context_groups` (one window per matching line) printed in order, every
/// entry `j` as `shown_line` of line `j`, and the given separator in yellow
/// before every group but the first.
pub proof fn law_context_output(
    re: (Seq<char>, bool),
    lines: Seq<Seq<char>>,
    context_size: int,
    highlight: bool,
    line_number: bool,
    separator: Seq<char>,
)
    ensures
        context_output(re, lines, context_size, highlight, line_number, separator).len() == printed_length(
            context_groups(match_flags(re, lines), context_size),
        ),
        forall|g: int, t: int|
            0 <= g < context_groups(match_flags(re, lines), context_size).len() && 0 <= t
                < context_groups(match_flags(re, lines), context_size)[g].len() ==> context_output(
                re,
                lines,
                context_size,
                highlight,
                line_number,
                separator,
            )[group_offset(context_groups(match_flags(re, lines), context_size), g) + t] == shown_line(
                re,
                lines,
                #[trigger] context_groups(match_flags(re, lines), context_size)[g][t],
                highlight,
                line_number,
            ),
        forall|g: int|
            0 < g < context_groups(match_flags(re, lines), context_size).len() ==> context_output(
                re,
                lines,
                context_size,
                highlight,
                line_number,
                separator,
            )[#[trigger] group_offset(context_groups(match_flags(re, lines), context_size), g) - 1] == colored(
                Colors::Yellow,
                separator,
            ),
{
    let gs = context_groups(match_flags(re, lines), context_size);
    lemma_indexed_layout(gs, context_text(re, lines, highlight), line_number, separator);
    assert forall|j: int| true implies (if line_number {
        line_number_prefix((j + 1) as nat)
    } else {
        Seq::empty()
    }) + #[trigger] context_text(re, lines, highlight)(j) == shown_line(re, lines, j, highlight, line_number) by {
        lemma_context_text(re, lines, highlight, line_number, j);
    }
}

/// The inverted search prints, in input order, every line without a
/// match and nothing else, each as it is after its own 1-based number when
/// line numbers are on.
pub proof fn law_inverted_output(re: (Seq<char>, bool), lines: Seq<Seq<char>>, line_number: bool)
    ensures
        inverted_output(re, lines, line_number).len() == selected_indices(miss_flags(re, lines)).len(),
        strictly_increasing(selected_indices(miss_flags(re, lines))),
        forall|t: int|
            0 <= t < inverted_output(re, lines, line_number).len() ==> {
                let i = #[trigger] selected_indices(miss_flags(re, lines))[t];
                &&& 0 <= i < lines.len()
                &&& !line_matches(re, lines[i])
                &&& inverted_output(re, lines, line_number)[t] == shown_line(re, lines, i, false, line_number)
            },
        forall|i: int|
            0 <= i < lines.len() && !line_matches(re, #[trigger] lines[i]) ==> selected_indices(
                miss_flags(re, lines),
            ).contains(i),
{
    let mf = match_flags(re, lines);
    let nf = miss_flags(re, lines);
    law_selected_indices(nf);
    let sel = selected_indices(nf);
    assert forall|t: int| 0 <= t < inverted_output(re, lines, line_number).len() implies {
        let i = #[trigger] selected_indices(miss_flags(re, lines))[t];
        &&& 0 <= i < lines.len()
        &&& !line_matches(re, lines[i])
        &&& inverted_output(re, lines, line_number)[t] == shown_line(re, lines, i, false, line_number)
    } by {
        let i = sel[t];
        assert(nf[i]);
        assert(nf[i] == !mf[i]);
        if !line_number {
            assert(Seq::<char>::empty() + lines[i] =~= lines[i]);
        }
    }
    assert forall|i: int| 0 <= i < lines.len() && !line_matches(re, #[trigger] lines[i]) implies sel.contains(i) by {
        assert(nf[i] == !mf[i]);
        assert(nf[i]);
    }
}

/// The search without context prints, in input order, every matching line
/// and nothing else, each after its own 1-based number when line numbers
/// are on, with its matches in red when highlighting is on.
pub proof fn law_matches_output(re: (Seq<char>, bool), lines: Seq<Seq<char>>, highlight: bool, line_number: bool)
    ensures
        matches_output(re, lines, highlight, line_number).len() == selected_indices(match_flags(re, lines)).len(),
        strictly_increasing(selected_indices(match_flags(re, lines))),
        forall|t: int|
            0 <= t < matches_output(re, lines, highlight, line_number).len() ==> {
                let i = #[trigger] selected_indices(match_flags(re, lines))[t];
                &&& 0 <= i < lines.len()
                &&& line_matches(re, lines[i])
                &&& matches_output(re, lines, highlight, line_number)[t] == shown_line(re, lines, i, highlight, line_number)
            },
        forall|i: int|
            0 <= i < lines.len() && line_matches(re, #[trigger] lines[i]) ==> selected_indices(
                match_flags(re, lines),
            ).contains(i),
{
    let mf = match_flags(re, lines);
    law_selected_indices(mf);
    let sel = selected_indices(mf);
    assert(mf.take(lines.len() as int) =~= mf);
    assert forall|t: int| 0 <= t < matches_output(re, lines, highlight, line_number).len() implies {
        let i = #[trigger] selected_indices(match_flags(re, lines))[t];
        &&& 0 <= i < lines.len()
        &&& line_matches(re, lines[i])
        &&& matches_output(re, lines, highlight, line_number)[t] == shown_line(re, lines, i, highlight, line_number)
    } by {
        let i = sel[t];
        assert(mf[i]);
        let text = if highlight { highlighted(re, lines[i]) } else { lines[i] };
        if !line_number {
            assert(Seq::<char>::empty() + text =~= text);
        }
    }
    assert forall|i: int| 0 <= i < lines.len() && line_matches(re, #[trigger] lines[i]) implies sel.contains(i) by {
        assert(mf[i]);
    }
}

/// Which search runs: counting prints only the number of matching lines;
/// otherwise inverting prints the inverted search whatever the context;
/// otherwise the context decides, and a context size that does not parse
/// is the only failure.
pub proof fn law_search_output(
    re: (Seq<char>, bool),
    lines: Seq<Seq<char>>,
    flags: Flags,
    context: ContextType,
    separator: Seq<char>,
)
    ensures
        flags.count ==> search_output(re, lines, flags, context, separator) == Some(
            seq![decimal(selected_indices(match_flags(re, lines)).len())],
        ),
        !flags.count && flags.no_match ==> search_output(re, lines, flags, context, separator) == Some(
            inverted_output(re, lines, flags.line_number),
        ),
        !flags.count && !flags.no_match ==> match context {
            ContextType::NoContext => search_output(re, lines, flags, context, separator) == Some(
                matches_output(re, lines, flags.highlight, flags.line_number),
            ),
            ContextType::Before(size) => search_output(re, lines, flags, context, separator) == match parsed_usize(size@) {
                Some(c) => Some(before_context_output(re, lines, c as int, flags.highlight, flags.line_number, separator)),
                None => None::<Seq<Seq<char>>>,
            },
            ContextType::After(size) => search_output(re, lines, flags, context, separator) == match parsed_usize(size@) {
                Some(c) => Some(after_context_output(re, lines, c as int, flags.highlight, flags.line_number, separator)),
                None => None::<Seq<Seq<char>>>,
            },
            ContextType::Context(size) => search_output(re, lines, flags, context, separator) == match parsed_usize(size@) {
                Some(c) => Some(context_output(re, lines, c as int, flags.highlight, flags.line_number, separator)),
                None => None::<Seq<Seq<char>>>,
            },
        },
{
}

/// With inverting on and counting off, the context does not change what
/// is printed.
pub proof fn law_inverting_ignores_context(
    re: (Seq<char>, bool),
    lines: Seq<Seq<char>>,
    flags: Flags,
    context1: ContextType,
    context2: ContextType,
    separator1: Seq<char>,
    separator2: Seq<char>,
)
    requires
        !flags.count,
        flags.no_match,
    ensures
        search_output(re, lines, flags, context1, separator1) == search_output(re, lines, flags, context2, separator2),
{
}

} // verus!
