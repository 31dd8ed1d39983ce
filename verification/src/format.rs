use vstd::prelude::*;

use crate::error::repeat_char;
use crate::lines::{lines_of, split_lines, split_state, strip_cr, trim, trim_end_index, trim_spec, trim_start_index};
use crate::text::{chars_of, is_unicode_whitespace, push_char, push_str, string_from_chars};

verus! {

/// Count of `needle` outside `"..."` literals, and whether the scan ends
/// inside a literal. Strings have no escapes for this purpose.
pub open spec fn count_outside_state(line: Seq<char>, needle: char) -> (nat, bool)
    decreases line.len(),
{
    if line.len() == 0 {
        (0, false)
    } else {
        let (count, in_string) = count_outside_state(line.drop_last(), needle);
        let ch = line.last();
        if ch == '"' {
            (count, !in_string)
        } else if ch == needle && !in_string {
            (count + 1, in_string)
        } else {
            (count, in_string)
        }
    }
}

pub open spec fn sat_sub(a: nat, b: nat) -> nat {
    if a >= b { (a - b) as nat } else { 0 }
}

pub open spec fn sat_add_usize(a: nat, b: nat) -> nat {
    if a + b <= usize::MAX { a + b } else { usize::MAX as nat }
}

/// Output text, brace depth and length of the current blank run (capped at
/// 2) after formatting `lines`. A blank run is written as one empty line
/// only when a non-blank line follows it, so the text never ends in one.
pub open spec fn format_state(lines: Seq<Seq<char>>) -> (Seq<char>, nat, nat)
    decreases lines.len(),
{
    if lines.len() == 0 {
        (seq![], 0, 0)
    } else {
        let (out, depth, blank_run) = format_state(lines.drop_last());
        let trimmed = trim_spec(lines.last());
        if trimmed.len() == 0 {
            let run: nat = if blank_run + 1 <= 2 { blank_run + 1 } else { 2 };
            (out, depth, run)
        } else {
            let closes_leading: nat = if trimmed[0] == '}' { 1 } else { 0 };
            let level = sat_sub(depth, closes_leading);
            let opens = count_outside_state(trimmed, '{').0;
            let closes = count_outside_state(trimmed, '}').0;
            let trailing = sat_sub(closes, closes_leading);
            let gap: Seq<char> = if blank_run > 0 { seq!['\n'] } else { seq![] };
            (
                out + gap + repeat_char(' ', 4 * level) + trimmed + seq!['\n'],
                sat_sub(sat_add_usize(level, opens), trailing),
                0,
            )
        }
    }
}

/// The formatted text: every non-blank line trimmed and indented four
/// spaces per open brace, each blank run between lines reduced to one
/// empty line, blank lines at the end dropped, and every line ended by a
/// newline.
pub open spec fn formatted(source: Seq<char>) -> Seq<char> {
    format_state(lines_of(source)).0
}

fn count_char_outside_string(line: &Vec<char>, needle: char) -> (count: usize)
    requires
        needle != '"',
    ensures
        count == count_outside_state(line@, needle).0,
{
    let mut count: usize = 0;
    let mut in_string = false;
    let mut i: usize = 0;
    while i < line.len()
        invariant
            i <= line.len(),
            needle != '"',
            (count as nat, in_string) == count_outside_state(line@.take(i as int), needle),
            count <= i,
        decreases line.len() - i,
    {
        proof {
            assert(line@.take(i + 1).drop_last() =~= line@.take(i as int));
        }
        let ch = line[i];
        if ch == '"' {
            in_string = !in_string;
        } else if ch == needle && !in_string {
            count = count + 1;
        }
        i = i + 1;
    }
    proof {
        assert(line@.take(i as int) =~= line@);
    }
    count
}

/// Formats source with normalized indentation and whitespace; see
/// [`formatted`].
pub fn format_source(source: &str) -> (out: String)
    ensures
        out@ == formatted(source@),
{
    let chars = chars_of(source);
    let lines = split_lines(&chars);
    let ghost all = lines_of(source@);
    let mut out = String::new();
    let mut depth: usize = 0;
    let mut blank_run: usize = 0;
    let mut i: usize = 0;
    proof {
        assert(all.take(0) =~= Seq::<Seq<char>>::empty());
    }
    while i < lines.len()
        invariant
            i <= lines.len(),
            lines@.len() == all.len(),
            forall|j: int| 0 <= j < lines@.len() ==> (#[trigger] lines@[j])@ == all[j],
            (out@, depth as nat, blank_run as nat) == format_state(all.take(i as int)),
        decreases lines.len() - i,
    {
        proof {
            assert(all.take(i + 1).drop_last() =~= all.take(i as int));
            assert(all.take(i + 1).last() == lines@[i as int]@);
        }
        let trimmed = trim(&lines[i]);
        if trimmed.len() == 0 {
            if blank_run < 2 {
                blank_run = blank_run + 1;
            }
        } else {
            let ghost at_line = out@;
            let ghost gap: Seq<char> = if blank_run > 0 { seq!['\n'] } else { seq![] };
            if blank_run > 0 {
                push_char(&mut out, '\n');
            }
            blank_run = 0;
            let closes_leading: usize = if trimmed[0] == '}' { 1 } else { 0 };
            let level = if depth >= closes_leading { depth - closes_leading } else { 0 };
            let ghost before = out@;
            let mut k: usize = 0;
            while k < level
                invariant
                    k <= level,
                    out@ == before + repeat_char(' ', 4 * k as nat),
                decreases level - k,
            {
                push_str(&mut out, "    ");
                proof {
                    reveal_strlit("    ");
                    assert(before + repeat_char(' ', 4 * (k + 1) as nat) =~= before + repeat_char(
                        ' ',
                        4 * k as nat,
                    ) + "    "@);
                }
                k = k + 1;
            }
            let text = string_from_chars(&trimmed);
            push_str(&mut out, text.as_str());
            push_char(&mut out, '\n');
            let opens = count_char_outside_string(&trimmed, '{');
            let closes = count_char_outside_string(&trimmed, '}');
            let trailing = if closes >= closes_leading { closes - closes_leading } else { 0 };
            let raised = level.saturating_add(opens);
            depth = if raised >= trailing { raised - trailing } else { 0 };
            proof {
                assert(before =~= at_line + gap);
                assert(out@ =~= at_line + gap + repeat_char(' ', 4 * level as nat) + trimmed@ + seq!['\n']);
            }
        }
        i = i + 1;
    }
    proof {
        assert(all.take(lines@.len() as int) =~= all);
    }
    out
}

// ----- formatting twice changes nothing -----

/// The lines `format_source` writes for `lines`, each without its newline:
/// each non-blank line trimmed and indented, after an empty line when a
/// blank run comes before it.
pub open spec fn emitted(lines: Seq<Seq<char>>) -> Seq<Seq<char>>
    decreases lines.len(),
{
    if lines.len() == 0 {
        seq![]
    } else {
        let prev = emitted(lines.drop_last());
        let (out, depth, run) = format_state(lines.drop_last());
        let t = trim_spec(lines.last());
        if t.len() == 0 {
            prev
        } else {
            let closes_leading: nat = if t[0] == '}' { 1 } else { 0 };
            let e = repeat_char(' ', 4 * sat_sub(depth, closes_leading)) + t;
            if run > 0 {
                prev.push(seq![]).push(e)
            } else {
                prev.push(e)
            }
        }
    }
}

/// Lines joined, each ended by a newline.
pub open spec fn flatten_lines(lines: Seq<Seq<char>>) -> Seq<char>
    decreases lines.len(),
{
    if lines.len() == 0 {
        seq![]
    } else {
        flatten_lines(lines.drop_last()) + lines.last() + seq!['\n']
    }
}

pub open spec fn no_newline(l: Seq<char>) -> bool {
    forall|i: int| 0 <= i < l.len() ==> l[i] != '\n'
}

/// A line that reads back as itself: no newline, no trailing `'\r'`.
pub open spec fn plain_line(l: Seq<char>) -> bool {
    no_newline(l) && !(l.len() > 0 && l.last() == '\r')
}

proof fn lemma_output_is_emitted(lines: Seq<Seq<char>>)
    ensures
        format_state(lines).0 == flatten_lines(emitted(lines)),
    decreases lines.len(),
{
    if lines.len() > 0 {
        lemma_output_is_emitted(lines.drop_last());
        let prev = emitted(lines.drop_last());
        let t = trim_spec(lines.last());
        if t.len() > 0 {
            let (out, depth, run) = format_state(lines.drop_last());
            let closes_leading: nat = if t[0] == '}' { 1 } else { 0 };
            let e = repeat_char(' ', 4 * sat_sub(depth, closes_leading)) + t;
            if run > 0 {
                let with_gap = prev.push(seq![]);
                assert(with_gap.drop_last() =~= prev);
                assert(with_gap.push(e).drop_last() =~= with_gap);
                assert(flatten_lines(with_gap) == flatten_lines(prev) + Seq::<char>::empty() + seq!['\n']);
                assert(flatten_lines(with_gap) + e + seq!['\n'] =~= out + seq!['\n'] + repeat_char(
                    ' ',
                    4 * sat_sub(depth, closes_leading),
                ) + t + seq!['\n']);
            } else {
                assert(prev.push(e).drop_last() =~= prev);
                assert(flatten_lines(prev) + e + seq!['\n'] =~= out + Seq::<char>::empty() + repeat_char(
                    ' ',
                    4 * sat_sub(depth, closes_leading),
                ) + t + seq!['\n']);
            }
        }
    }
}

/// Reading on after a line break, characters without a newline extend the
/// current line.
proof fn lemma_split_extend(x: Seq<char>, y: Seq<char>)
    requires
        split_state(x).1.len() == 0,
        no_newline(y),
    ensures
        split_state(x + y) == (split_state(x).0, y),
    decreases y.len(),
{
    if y.len() == 0 {
        assert(x + y =~= x);
    } else {
        lemma_split_extend(x, y.drop_last());
        assert((x + y).drop_last() =~= x + y.drop_last());
        assert((x + y).last() == y.last());
        assert(y.drop_last().push(y.last()) =~= y);
    }
}

proof fn lemma_lines_of_flatten(lines: Seq<Seq<char>>)
    requires
        forall|i: int| 0 <= i < lines.len() ==> plain_line(#[trigger] lines[i]),
    ensures
        split_state(flatten_lines(lines)) == (lines, Seq::<char>::empty()),
        lines_of(flatten_lines(lines)) == lines,
    decreases lines.len(),
{
    if lines.len() == 0 {
        assert(split_state(Seq::<char>::empty()) == (Seq::<Seq<char>>::empty(), Seq::<char>::empty()));
    } else {
        let front = lines.drop_last();
        assert forall|i: int| 0 <= i < front.len() implies plain_line(#[trigger] front[i]) by {
            assert(front[i] == lines[i]);
        }
        lemma_lines_of_flatten(front);
        let x = flatten_lines(front);
        let e = lines.last();
        assert(plain_line(lines[lines.len() - 1]));
        lemma_split_extend(x, e);
        let whole = x + e + seq!['\n'];
        assert(whole.drop_last() =~= x + e);
        assert(strip_cr(e) == e);
        assert(front.push(e) =~= lines);
    }
}

proof fn lemma_split_lines_plain(s: Seq<char>)
    ensures
        no_newline(split_state(s).1),
        forall|i: int| 0 <= i < split_state(s).0.len() ==> no_newline(#[trigger] split_state(s).0[i]),
    decreases s.len(),
{
    if s.len() > 0 {
        lemma_split_lines_plain(s.drop_last());
        let (done, current) = split_state(s.drop_last());
        if s.last() == '\n' {
            let l = strip_cr(current);
            assert(no_newline(l)) by {
                if current.len() > 0 && current.last() == '\r' {
                    assert forall|i: int| 0 <= i < l.len() implies l[i] != '\n' by {
                        assert(l[i] == current[i]);
                    }
                }
            }
            assert forall|i: int| 0 <= i < done.push(l).len() implies no_newline(#[trigger] done.push(l)[i]) by {
                if i < done.len() {
                    assert(done.push(l)[i] == done[i]);
                }
            }
        } else {
            let c = current.push(s.last());
            assert forall|i: int| 0 <= i < c.len() implies c[i] != '\n' by {
                if i < current.len() {
                    assert(c[i] == current[i]);
                }
            }
        }
    }
}

proof fn lemma_lines_of_plain(s: Seq<char>)
    ensures
        forall|i: int| 0 <= i < lines_of(s).len() ==> no_newline(#[trigger] lines_of(s)[i]),
{
    lemma_split_lines_plain(s);
    let (done, current) = split_state(s);
    if current.len() > 0 {
        assert forall|i: int| 0 <= i < done.push(current).len() implies no_newline(#[trigger] done.push(current)[i]) by {
            if i < done.len() {
                assert(done.push(current)[i] == done[i]);
            }
        }
    }
}

proof fn lemma_trim_start(s: Seq<char>, from: int)
    requires
        0 <= from <= s.len(),
    ensures
        from <= trim_start_index(s, from) <= s.len(),
        trim_start_index(s, from) < s.len() ==> !is_unicode_whitespace(s[trim_start_index(s, from)]),
        forall|i: int| from <= i < trim_start_index(s, from) ==> is_unicode_whitespace(#[trigger] s[i]),
    decreases s.len() - from,
{
    if from < s.len() && is_unicode_whitespace(s[from]) {
        lemma_trim_start(s, from + 1);
    }
}

proof fn lemma_trim_end(s: Seq<char>, lo: int, to: int)
    requires
        0 <= lo <= to <= s.len(),
    ensures
        lo <= trim_end_index(s, lo, to) <= to,
        trim_end_index(s, lo, to) > lo ==> !is_unicode_whitespace(s[trim_end_index(s, lo, to) - 1]),
    decreases to - lo,
{
    if to > lo && is_unicode_whitespace(s[to - 1]) {
        lemma_trim_end(s, lo, to - 1);
    }
}

/// A trimmed line has no whitespace at either end, and no newline if the
/// line had none.
proof fn lemma_trimmed(l: Seq<char>)
    ensures
        trim_spec(l).len() > 0 ==> !is_unicode_whitespace(trim_spec(l)[0]) && !is_unicode_whitespace(
            trim_spec(l).last(),
        ),
        no_newline(l) ==> no_newline(trim_spec(l)),
{
    lemma_trim_start(l, 0);
    let lo = trim_start_index(l, 0);
    lemma_trim_end(l, lo, l.len() as int);
    let hi = trim_end_index(l, lo, l.len() as int);
    let t = trim_spec(l);
    if t.len() > 0 {
        assert(t[0] == l[lo]);
        assert(t.last() == l[hi - 1]);
    }
    if no_newline(l) {
        assert forall|i: int| 0 <= i < t.len() implies t[i] != '\n' by {
            assert(t[i] == l[lo + i]);
        }
    }
}

/// Trimming an indented, already trimmed line gives the line back.
proof fn lemma_trim_indented(n: nat, t: Seq<char>)
    requires
        t.len() > 0,
        !is_unicode_whitespace(t[0]),
        !is_unicode_whitespace(t.last()),
    ensures
        trim_spec(repeat_char(' ', n) + t) == t,
{
    let s = repeat_char(' ', n) + t;
    assert forall|i: int| 0 <= i < n implies is_unicode_whitespace(#[trigger] s[i]) by {
        assert(s[i] == ' ');
    }
    assert(s[n as int] == t[0]);
    lemma_trim_start_at(s, 0, n as int);
    assert(s[s.len() - 1] == t.last());
    assert(trim_end_index(s, n as int, s.len() as int) == s.len());
    assert(s.subrange(n as int, s.len() as int) =~= t);
}

proof fn lemma_trim_start_at(s: Seq<char>, from: int, k: int)
    requires
        0 <= from <= k < s.len(),
        forall|i: int| from <= i < k ==> is_unicode_whitespace(#[trigger] s[i]),
        !is_unicode_whitespace(s[k]),
    ensures
        trim_start_index(s, from) == k,
    decreases k - from,
{
    if from < k {
        lemma_trim_start_at(s, from + 1, k);
    }
}

proof fn lemma_emitted_plain(lines: Seq<Seq<char>>)
    requires
        forall|i: int| 0 <= i < lines.len() ==> no_newline(#[trigger] lines[i]),
    ensures
        forall|i: int| 0 <= i < emitted(lines).len() ==> plain_line(#[trigger] emitted(lines)[i]),
    decreases lines.len(),
{
    if lines.len() > 0 {
        let front = lines.drop_last();
        assert forall|i: int| 0 <= i < front.len() implies no_newline(#[trigger] front[i]) by {
            assert(front[i] == lines[i]);
        }
        lemma_emitted_plain(front);
        let prev = emitted(front);
        let l = lines.last();
        assert(no_newline(lines[lines.len() - 1]));
        lemma_trimmed(l);
        let t = trim_spec(l);
        let (out, depth, run) = format_state(front);
        let e: Seq<char> = if t.len() == 0 {
            seq![]
        } else {
            let closes_leading: nat = if t[0] == '}' { 1 } else { 0 };
            repeat_char(' ', 4 * sat_sub(depth, closes_leading)) + t
        };
        if t.len() > 0 {
            let closes_leading: nat = if t[0] == '}' { 1 } else { 0 };
            let pad = repeat_char(' ', 4 * sat_sub(depth, closes_leading));
            assert forall|i: int| 0 <= i < e.len() implies e[i] != '\n' by {
                if i < pad.len() {
                    assert(e[i] == ' ');
                } else {
                    assert(e[i] == t[i - pad.len()]);
                }
            }
            assert(e.last() == t.last());
        }
        assert forall|i: int| 0 <= i < emitted(lines).len() implies plain_line(#[trigger] emitted(lines)[i]) by {
            if i < prev.len() {
                assert(emitted(lines)[i] == prev[i]);
            } else if t.len() > 0 && run > 0 && i == prev.len() {
                assert(emitted(lines)[i] == Seq::<char>::empty());
            } else {
                assert(emitted(lines)[i] == e);
            }
        }
    }
}

/// Formatting what was emitted reaches the same text and depth, and is in
/// a blank run exactly when the first formatting was.
proof fn lemma_reformat_state(lines: Seq<Seq<char>>)
    ensures
        format_state(emitted(lines)).0 == format_state(lines).0,
        format_state(emitted(lines)).1 == format_state(lines).1,
        format_state(emitted(lines)).2 == 0,
    decreases lines.len(),
{
    if lines.len() > 0 {
        let front = lines.drop_last();
        lemma_reformat_state(front);
        let prev = emitted(front);
        let l = lines.last();
        lemma_trimmed(l);
        let t = trim_spec(l);
        let (out, depth, run) = format_state(front);
        if t.len() > 0 {
            let closes_leading: nat = if t[0] == '}' { 1 } else { 0 };
            let e = repeat_char(' ', 4 * sat_sub(depth, closes_leading)) + t;
            lemma_trim_indented(4 * sat_sub(depth, closes_leading), t);
            if run > 0 {
                let with_gap = prev.push(seq![]);
                assert(with_gap.drop_last() =~= prev);
                assert(trim_spec(Seq::<char>::empty()) =~= Seq::<char>::empty());
                let e2 = with_gap.push(e);
                assert(e2.drop_last() =~= with_gap);
                assert(with_gap.last() == Seq::<char>::empty());
                assert(format_state(with_gap) == (out, depth, 1nat));
                assert(e2.last() == e);
                assert(trim_spec(e) == t);
            } else {
                let e2 = prev.push(e);
                assert(e2.drop_last() =~= prev);
                assert(e2.last() == e);
                assert(trim_spec(e) == t);
            }
        }
    }
}

proof fn lemma_output_ends(lines: Seq<Seq<char>>)
    ensures
        format_state(lines).0.len() > 0 ==> {
            let out = format_state(lines).0;
            &&& out.last() == '\n'
            &&& out.len() >= 2 ==> out[out.len() - 2] != '\n'
        },
    decreases lines.len(),
{
    if lines.len() > 0 {
        lemma_output_ends(lines.drop_last());
        let t = trim_spec(lines.last());
        lemma_trimmed(lines.last());
        if t.len() > 0 {
            let (out, depth, run) = format_state(lines.drop_last());
            let closes_leading: nat = if t[0] == '}' { 1 } else { 0 };
            let gap: Seq<char> = if run > 0 { seq!['\n'] } else { seq![] };
            let whole = out + gap + repeat_char(' ', 4 * sat_sub(depth, closes_leading)) + t + seq!['\n'];
            assert(whole[whole.len() - 2] == t.last());
            assert(is_unicode_whitespace('\n'));
        }
    }
}

/// A formatted file that is not empty ends with exactly one newline.
pub proof fn law_format_single_final_newline(source: Seq<char>)
    ensures
        formatted(source).len() > 0 ==> formatted(source).last() == '\n',
        formatted(source).len() >= 2 ==> formatted(source)[formatted(source).len() - 2] != '\n',
{
    lemma_output_ends(lines_of(source));
}

/// Formatting is idempotent: formatting formatted text changes nothing.
pub proof fn law_format_idempotent(source: Seq<char>)
    ensures
        formatted(formatted(source)) == formatted(source),
{
    let lines = lines_of(source);
    lemma_output_is_emitted(lines);
    lemma_lines_of_plain(source);
    lemma_emitted_plain(lines);
    lemma_lines_of_flatten(emitted(lines));
    lemma_reformat_state(lines);
}

} // verus!
