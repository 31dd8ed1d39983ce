use vstd::prelude::*;

use crate::text::{
    byte_offset, char_utf16_width, char_utf8_width, chars_of, lemma_byte_offset_monotone,
    lemma_byte_offset_step, str_byte_len, utf16_len, utf16_width, utf8_len, utf8_width,
};

verus! {

/// Whether byte offset `b` falls between two characters of `s` (or at an end).
pub open spec fn is_char_boundary(s: Seq<char>, b: int) -> bool {
    exists|k: int| 0 <= k <= s.len() && byte_offset(s, k) == b
}

/// The character index whose byte offset is `b`.
pub open spec fn char_index_of_byte(s: Seq<char>, b: int) -> int {
    choose|k: int| 0 <= k <= s.len() && byte_offset(s, k) == b
}

/// UTF-16 code units used by the characters `a..b` of `s`.
pub open spec fn utf16_between(s: Seq<char>, a: int, b: int) -> nat {
    utf16_len(s.subrange(a, b))
}

/// Character indices where lines begin: 0 and one past every newline.
pub open spec fn line_start_indices(s: Seq<char>) -> Seq<int>
    decreases s.len(),
{
    if s.len() == 0 {
        seq![0]
    } else {
        let prev = line_start_indices(s.drop_last());
        if s.last() == '\n' {
            prev.push(s.len() as int)
        } else {
            prev
        }
    }
}

/// `starts` holds the byte offsets of every line start of `s`, in order.
pub open spec fn is_line_table(s: Seq<char>, starts: Seq<usize>) -> bool {
    &&& starts.len() == line_start_indices(s).len()
    &&& forall|i: int|
        0 <= i < starts.len() ==> starts[i] as int == byte_offset(s, #[trigger] line_start_indices(s)[i])
}

/// Line-start tables accepted by the position conversions: sorted char
/// boundaries beginning at 0.
pub open spec fn well_formed_starts(s: Seq<char>, starts: Seq<usize>) -> bool {
    &&& (starts.len() == 0 || starts[0] == 0)
    &&& forall|i: int, j: int| 0 <= i <= j < starts.len() ==> starts[i] <= starts[j]
    &&& forall|i: int| 0 <= i < starts.len() ==> is_char_boundary(s, #[trigger] starts[i] as int)
}

/// Number of entries of `starts` that are at most `x`.
pub open spec fn count_le(starts: Seq<usize>, x: int) -> nat
    decreases starts.len(),
{
    if starts.len() == 0 {
        0
    } else {
        count_le(starts.drop_last(), x) + if starts.last() <= x { 1nat } else { 0nat }
    }
}

/// Zero-based line containing byte `x`.
pub open spec fn line_of(starts: Seq<usize>, x: int) -> int {
    if count_le(starts, x) == 0 { 0 } else { count_le(starts, x) - 1 }
}

/// Byte offset where line `line` starts (0 for a missing table entry).
pub open spec fn start_of_line(starts: Seq<usize>, line: int) -> int {
    if 0 <= line < starts.len() { starts[line] as int } else { 0 }
}

pub open spec fn clamp_offset(s: Seq<char>, offset: int) -> int {
    if offset < utf8_len(s) { offset } else { utf8_len(s) as int }
}

/// Zero-based (line, UTF-16 character) position of a byte offset.
pub open spec fn utf16_position_of(s: Seq<char>, starts: Seq<usize>, offset: int) -> (int, int) {
    let clamped = clamp_offset(s, offset);
    let line = line_of(starts, clamped);
    let k0 = char_index_of_byte(s, start_of_line(starts, line));
    let k1 = char_index_of_byte(s, clamped);
    (line, utf16_between(s, k0, k1) as int)
}

/// One-based (line, character column) of a byte offset.
pub open spec fn line_column_of(s: Seq<char>, starts: Seq<usize>, offset: int) -> (int, int) {
    let clamped = clamp_offset(s, offset);
    let line = line_of(starts, clamped);
    let k0 = char_index_of_byte(s, start_of_line(starts, line));
    let k1 = char_index_of_byte(s, clamped);
    (line + 1, k1 - k0 + 1)
}

/// First character index `j` in `from..=last` whose UTF-16 column from `k0`
/// reaches `target`; `last + 1` when none does.
pub open spec fn first_reaching(s: Seq<char>, k0: int, from: int, last: int, target: int) -> int
    decreases last + 1 - from,
{
    if from > last {
        last + 1
    } else if utf16_between(s, k0, from) >= target {
        from
    } else {
        first_reaching(s, k0, from + 1, last, target)
    }
}

/// Byte offset of a zero-based (line, UTF-16 character) position: the first
/// character boundary of the line at or past that column, the line end when
/// the column lies beyond it, and `None` when the column splits the final
/// surrogate pair of the line or the line does not exist.
pub open spec fn offset_of_utf16_position(
    s: Seq<char>,
    starts: Seq<usize>,
    line: int,
    character: int,
) -> Option<int> {
    if line < 0 || line >= starts.len() {
        None
    } else {
        let start = starts[line] as int;
        let end = if line + 1 < starts.len() { starts[line + 1] as int } else { utf8_len(s) as int };
        let k0 = char_index_of_byte(s, start);
        let k1 = char_index_of_byte(s, end);
        let j = first_reaching(s, k0, k0, k1, character);
        if j > k1 {
            Some(end)
        } else if j < k1 {
            Some(byte_offset(s, j) as int)
        } else if utf16_between(s, k0, k1) == character {
            Some(end)
        } else {
            None
        }
    }
}

pub proof fn lemma_byte_offset_injective(s: Seq<char>, i: int, j: int)
    requires
        0 <= i <= s.len(),
        0 <= j <= s.len(),
        byte_offset(s, i) == byte_offset(s, j),
    ensures
        i == j,
{
    if i < j {
        lemma_byte_offset_monotone(s, i, j);
    } else if j < i {
        lemma_byte_offset_monotone(s, j, i);
    }
}

/// The character index of a boundary is the unique index at that byte.
pub proof fn lemma_char_index_of_byte(s: Seq<char>, k: int)
    requires
        0 <= k <= s.len(),
    ensures
        char_index_of_byte(s, byte_offset(s, k) as int) == k,
        is_char_boundary(s, byte_offset(s, k) as int),
{
    let b = byte_offset(s, k) as int;
    assert(0 <= k <= s.len() && byte_offset(s, k) == b);
    let c = char_index_of_byte(s, b);
    lemma_byte_offset_injective(s, c, k);
}

pub proof fn lemma_byte_offset_bound(s: Seq<char>, k: int)
    requires
        0 <= k <= s.len(),
    ensures
        byte_offset(s, k) <= utf8_len(s),
        byte_offset(s, s.len() as int) == utf8_len(s),
{
    assert(s.take(s.len() as int) =~= s);
    lemma_byte_offset_monotone(s, k, s.len() as int);
}

pub proof fn lemma_utf16_between_step(s: Seq<char>, a: int, b: int)
    requires
        0 <= a <= b < s.len(),
    ensures
        utf16_between(s, a, b + 1) == utf16_between(s, a, b) + utf16_width(s[b]),
{
    assert(s.subrange(a, b + 1) =~= s.subrange(a, b).push(s[b]));
    crate::text::lemma_utf16_len_push(s.subrange(a, b), s[b]);
}

pub proof fn lemma_utf16_between_strict(s: Seq<char>, a: int, b: int, c: int)
    requires
        0 <= a <= b <= c <= s.len(),
    ensures
        utf16_between(s, a, b) <= utf16_between(s, a, c),
        b < c ==> utf16_between(s, a, b) < utf16_between(s, a, c),
        utf16_between(s, a, c) <= utf16_len(s),
    decreases c - b,
{
    if b < c {
        lemma_utf16_between_strict(s, a, b, c - 1);
        lemma_utf16_between_step(s, a, c - 1);
    }
    lemma_utf16_between_bound(s, a, c);
}

proof fn lemma_utf16_between_bound(s: Seq<char>, a: int, c: int)
    requires
        0 <= a <= c <= s.len(),
    ensures
        utf16_between(s, a, c) <= utf16_len(s),
    decreases s.len() - c + a,
{
    if c < s.len() {
        lemma_utf16_between_bound(s, a, c + 1);
        lemma_utf16_between_step(s, a, c);
    } else if a > 0 {
        lemma_utf16_between_bound(s, a - 1, c);
        lemma_utf16_prefix(s.subrange(a - 1, c));
        assert(s.subrange(a - 1, c).drop_first() =~= s.subrange(a, c));
    } else {
        assert(s.subrange(0, s.len() as int) =~= s);
    }
}

/// Dropping the first character never increases the UTF-16 length.
proof fn lemma_utf16_prefix(t: Seq<char>)
    requires
        t.len() > 0,
    ensures
        utf16_len(t.drop_first()) + utf16_width(t[0]) == utf16_len(t),
    decreases t.len(),
{
    if t.len() == 1 {
        assert(t.drop_first() =~= Seq::<char>::empty());
        assert(t.drop_last() =~= Seq::<char>::empty());
    } else {
        lemma_utf16_prefix(t.drop_last());
        assert(t.drop_last().drop_first() =~= t.drop_first().drop_last());
        assert(t.drop_first().last() == t.last());
    }
}

/// Structural facts about the line-start indices of any text.
pub proof fn lemma_line_start_indices(s: Seq<char>)
    ensures
        line_start_indices(s).len() >= 1,
        line_start_indices(s)[0] == 0,
        forall|i: int, j: int|
            0 <= i < j < line_start_indices(s).len() ==> line_start_indices(s)[i]
                < line_start_indices(s)[j],
        forall|i: int|
            0 <= i < line_start_indices(s).len() ==> 0 <= #[trigger] line_start_indices(s)[i]
                <= s.len(),
        forall|i: int|
            0 < i < line_start_indices(s).len() ==> s[#[trigger] line_start_indices(s)[i] - 1]
                == '\n',
    decreases s.len(),
{
    if s.len() > 0 {
        let t = s.drop_last();
        lemma_line_start_indices(t);
        let prev = line_start_indices(t);
        assert forall|i: int| 0 < i < prev.len() implies s[#[trigger] prev[i] - 1] == '\n' by {
            assert(s[prev[i] - 1] == t[prev[i] - 1]);
        }
    }
}

/// A line table is a well-formed start table.
pub proof fn lemma_line_table_well_formed(s: Seq<char>, starts: Seq<usize>)
    requires
        is_line_table(s, starts),
    ensures
        well_formed_starts(s, starts),
        starts.len() >= 1,
{
    lemma_line_start_indices(s);
    let idx = line_start_indices(s);
    assert(starts[0] as int == byte_offset(s, idx[0]));
    assert(s.take(0) =~= Seq::<char>::empty());
    assert forall|i: int, j: int| 0 <= i <= j < starts.len() implies starts[i] <= starts[j] by {
        assert(starts[i] as int == byte_offset(s, idx[i]));
        assert(starts[j] as int == byte_offset(s, idx[j]));
        if i < j {
            lemma_byte_offset_monotone(s, idx[i], idx[j]);
        }
    }
    assert forall|i: int| 0 <= i < starts.len() implies is_char_boundary(s, #[trigger] starts[i] as int) by {
        assert(starts[i] as int == byte_offset(s, idx[i]));
        assert(0 <= idx[i] <= s.len());
        lemma_char_index_of_byte(s, idx[i]);
    }
}

/// Byte offsets at which lines start: 0 and one past every `'\n'`.
pub fn compute_line_starts(source: &str) -> (starts: Vec<usize>)
    ensures
        is_line_table(source@, starts@),
{
    let chars = chars_of(source);
    let total = str_byte_len(source);
    let ghost s = source@;
    let mut starts: Vec<usize> = Vec::new();
    starts.push(0);
    let mut offset: usize = 0;
    let mut i: usize = 0;
    proof {
        assert(s.take(0) =~= Seq::<char>::empty());
        assert(line_start_indices(s.take(0)) == seq![0int]);
    }
    while i < chars.len()
        invariant
            chars@ == s,
            total == utf8_len(s),
            i <= chars.len(),
            offset == byte_offset(s, i as int),
            starts@.len() == line_start_indices(s.take(i as int)).len(),
            forall|j: int|
                0 <= j < starts@.len() ==> starts@[j] as int == byte_offset(
                    s,
                    #[trigger] line_start_indices(s.take(i as int))[j],
                ),
        decreases chars.len() - i,
    {
        let c = chars[i];
        let w = char_utf8_width(c);
        proof {
            lemma_byte_offset_step(s, i as int);
            lemma_byte_offset_bound(s, i + 1);
            assert(s.take(i + 1).drop_last() =~= s.take(i as int));
            assert(s.take(i + 1).last() == c);
        }
        offset = offset + w;
        if c == '\n' {
            starts.push(offset);
        }
        i = i + 1;
    }
    proof {
        assert(s.take(i as int) =~= s);
    }
    starts
}

/// Finds the character index `k >= from` whose byte offset is `target`.
fn advance_to_byte(chars: &Vec<char>, from: usize, from_byte: usize, target: usize) -> (k: usize)
    requires
        from <= chars.len(),
        from_byte == byte_offset(chars@, from as int),
        from_byte <= target,
        is_char_boundary(chars@, target as int),
        utf8_len(chars@) <= usize::MAX,
    ensures
        from <= k <= chars.len(),
        byte_offset(chars@, k as int) == target,
        k == char_index_of_byte(chars@, target as int),
{
    let ghost s = chars@;
    let ghost kt = char_index_of_byte(s, target as int);
    proof {
        if kt < from {
            lemma_byte_offset_monotone(s, kt, from as int);
        }
    }
    let n = chars.len();
    let mut k = from;
    let mut b = from_byte;
    while b < target
        invariant
            n == s.len(),
            from <= k <= kt,
            kt <= s.len(),
            chars@ == s,
            b == byte_offset(s, k as int),
            byte_offset(s, kt) == target,
            utf8_len(s) <= usize::MAX,
        decreases kt - k,
    {
        proof {
            if k == kt {
                assert(false);
            }
            lemma_byte_offset_step(s, k as int);
            lemma_byte_offset_bound(s, k + 1);
        }
        b = b + char_utf8_width(chars[k]);
        k = k + 1;
    }
    proof {
        if k < kt {
            lemma_byte_offset_monotone(s, k as int, kt);
        }
        lemma_char_index_of_byte(s, k as int);
    }
    k
}

/// Index of the line holding byte `x`: the entries of `starts` at most `x`,
/// minus one, never below zero.
fn line_index(starts: &[usize], x: usize) -> (line: usize)
    ensures
        line == line_of(starts@, x as int),
{
    let mut count: usize = 0;
    let mut i: usize = 0;
    while i < starts.len()
        invariant
            i <= starts@.len(),
            count == count_le(starts@.take(i as int), x as int),
            count <= i,
        decreases starts.len() - i,
    {
        proof {
            assert(starts@.take(i + 1).drop_last() =~= starts@.take(i as int));
        }
        if starts[i] <= x {
            count = count + 1;
        }
        i = i + 1;
    }
    proof {
        assert(starts@.take(i as int) =~= starts@);
    }
    if count == 0 { 0 } else { count - 1 }
}

/// Facts about the line found for a byte offset in a sorted table.
proof fn lemma_line_of(starts: Seq<usize>, x: int)
    requires
        starts.len() >= 1,
        starts[0] == 0,
        0 <= x,
        forall|i: int, j: int| 0 <= i <= j < starts.len() ==> starts[i] <= starts[j],
    ensures
        0 <= line_of(starts, x) < starts.len(),
        starts[line_of(starts, x)] <= x,
        line_of(starts, x) + 1 < starts.len() ==> starts[line_of(starts, x) + 1] > x,
    decreases starts.len(),
{
    if starts.len() == 1 {
        assert(starts.drop_last() =~= Seq::<usize>::empty());
    } else {
        let t = starts.drop_last();
        lemma_line_of(t, x);
        if starts.last() <= x {
            // every entry is at most x, so the count is the full length
            lemma_count_le_all(starts, x);
        } else {
            assert(count_le(starts, x) == count_le(t, x));
        }
    }
}

proof fn lemma_count_le_all(starts: Seq<usize>, x: int)
    requires
        starts.len() >= 1,
        starts.last() <= x,
        forall|i: int, j: int| 0 <= i <= j < starts.len() ==> starts[i] <= starts[j],
    ensures
        count_le(starts, x) == starts.len(),
    decreases starts.len(),
{
    if starts.len() > 1 {
        let t = starts.drop_last();
        assert(starts[starts.len() - 2] <= starts[starts.len() - 1]);
        assert forall|i: int, j: int| 0 <= i <= j < t.len() implies t[i] <= t[j] by {
            assert(starts[i] <= starts[j]);
        }
        lemma_count_le_all(t, x);
        assert(count_le(starts, x) == count_le(t, x) + 1);
    } else {
        assert(starts.drop_last() =~= Seq::<usize>::empty());
        assert(count_le(starts.drop_last(), x) == 0);
        assert(count_le(starts, x) == count_le(starts.drop_last(), x) + 1);
    }
}

/// Converts a byte offset into a zero-based (line, UTF-16 character)
/// position. Offsets past the end are clamped to the end.
pub fn offset_to_utf16_position(source: &str, line_starts: &[usize], offset: usize) -> (pos: (
    u32,
    u32,
))
    requires
        well_formed_starts(source@, line_starts@),
        is_char_boundary(source@, clamp_offset(source@, offset as int)),
        line_starts@.len() <= u32::MAX,
        utf16_len(source@) <= u32::MAX,
    ensures
        pos.0 as int == utf16_position_of(source@, line_starts@, offset as int).0,
        pos.1 as int == utf16_position_of(source@, line_starts@, offset as int).1,
{
    let chars = chars_of(source);
    let total = str_byte_len(source);
    let ghost s = source@;
    let clamped = if offset < total { offset } else { total };
    let line = line_index(line_starts, clamped);
    let line_start = if line < line_starts.len() { line_starts[line] } else { 0 };
    proof {
        lemma_byte_offset_bound(s, 0);
        assert(s.take(0) =~= Seq::<char>::empty());
        lemma_char_index_of_byte(s, 0);
        if line_starts@.len() > 0 {
            lemma_line_of(line_starts@, clamped as int);
            assert(is_char_boundary(s, line_starts@[line as int] as int));
        }
    }
    let k0 = advance_to_byte(&chars, 0, 0, line_start);
    let mut k = k0;
    let mut b = line_start;
    let mut units: u32 = 0;
    let ghost kc = char_index_of_byte(s, clamped as int);
    proof {
        if kc < k0 {
            lemma_byte_offset_monotone(s, kc, k0 as int);
        }
        assert(s.subrange(k0 as int, k0 as int) =~= Seq::<char>::empty());
    }
    while b < clamped
        invariant
            chars@ == s,
            k0 <= k <= kc,
            kc <= s.len(),
            byte_offset(s, kc) == clamped,
            b == byte_offset(s, k as int),
            units == utf16_between(s, k0 as int, k as int),
            utf8_len(s) <= usize::MAX,
            utf16_len(s) <= u32::MAX,
        decreases kc - k,
    {
        proof {
            if k == kc {
                assert(false);
            }
            lemma_byte_offset_step(s, k as int);
            lemma_byte_offset_bound(s, k + 1);
            lemma_utf16_between_step(s, k0 as int, k as int);
            lemma_utf16_between_strict(s, k0 as int, k + 1, k + 1);
        }
        units = units + char_utf16_width(chars[k]);
        b = b + char_utf8_width(chars[k]);
        k = k + 1;
    }
    proof {
        if k < kc {
            lemma_byte_offset_monotone(s, k as int, kc);
        }
    }
    (line as u32, units)
}

/// Converts a zero-based (line, UTF-16 character) position to a byte
/// offset; see [`offset_of_utf16_position`].
pub fn utf16_position_to_offset(source: &str, line_starts: &[usize], line: u32, character: u32) -> (r:
    Option<usize>)
    requires
        well_formed_starts(source@, line_starts@),
        utf16_len(source@) <= u32::MAX,
    ensures
        r matches Some(o) ==> offset_of_utf16_position(source@, line_starts@, line as int, character as int) == Some(o as int),
        r is None ==> offset_of_utf16_position(source@, line_starts@, line as int, character as int) is None,
{
    let chars = chars_of(source);
    let total = str_byte_len(source);
    let ghost s = source@;
    let ln = line as usize;
    if ln >= line_starts.len() {
        return None;
    }
    let start = line_starts[ln];
    let end = if ln + 1 < line_starts.len() { line_starts[ln + 1] } else { total };
    proof {
        lemma_byte_offset_bound(s, 0);
        assert(s.take(0) =~= Seq::<char>::empty());
        assert(is_char_boundary(s, start as int));
        let ks = char_index_of_byte(s, start as int);
        lemma_byte_offset_bound(s, ks);
        if ln + 1 < line_starts@.len() {
            assert(is_char_boundary(s, line_starts@[ln + 1] as int));
        } else {
            lemma_char_index_of_byte(s, s.len() as int);
        }
    }
    let k0 = advance_to_byte(&chars, 0, 0, start);
    let k1 = advance_to_byte(&chars, k0, start, end);
    let ghost target = character as int;
    let mut k = k0;
    let mut b = start;
    let mut units: u32 = 0;
    proof {
        assert(s.subrange(k0 as int, k0 as int) =~= Seq::<char>::empty());
    }
    while k < k1
        invariant
            chars@ == s,
            k0 <= k <= k1,
            k1 <= s.len(),
            b == byte_offset(s, k as int),
            end == byte_offset(s, k1 as int),
            k1 == char_index_of_byte(s, end as int),
            k0 == char_index_of_byte(s, start as int),
            units == utf16_between(s, k0 as int, k as int),
            forall|i: int| k0 <= i < k ==> utf16_between(s, k0 as int, i) < target,
            k > k0 ==> units != target,
            target == character as int,
            s == source@,
            ln < line_starts@.len(),
            ln == line as usize,
            start == line_starts@[ln as int],
            end as int == (if ln + 1 < line_starts@.len() {
                line_starts@[ln + 1] as int
            } else {
                utf8_len(s) as int
            }),
            first_reaching(s, k0 as int, k0 as int, k1 as int, target) == first_reaching(
                s,
                k0 as int,
                k as int,
                k1 as int,
                target,
            ),
            utf8_len(s) <= usize::MAX,
            utf16_len(s) <= u32::MAX,
        decreases k1 - k,
    {
        if units >= character {
            proof {
                lemma_char_index_of_byte(s, k as int);
                assert(first_reaching(s, k0 as int, k as int, k1 as int, target) == k);
            }
            return Some(b);
        }
        proof {
            lemma_byte_offset_step(s, k as int);
            lemma_byte_offset_bound(s, k + 1);
            lemma_utf16_between_step(s, k0 as int, k as int);
            lemma_utf16_between_strict(s, k0 as int, k + 1, k + 1);
        }
        let ghost prev = k as int;
        units = units + char_utf16_width(chars[k]);
        b = b + char_utf8_width(chars[k]);
        k = k + 1;
        proof {
            assert(first_reaching(s, k0 as int, prev, k1 as int, target) == first_reaching(
                s,
                k0 as int,
                k as int,
                k1 as int,
                target,
            ));
        }
        if units == character {
            proof {
                assert(first_reaching(s, k0 as int, k as int, k1 as int, target) == k);
            }
            return Some(b);
        }
    }
    proof {
        assert(first_reaching(s, k0 as int, k as int, k1 as int, target) == if units >= character {
            k as int
        } else {
            first_reaching(s, k0 as int, k + 1, k1 as int, target)
        });
    }
    if units <= character {
        Some(end)
    } else {
        None
    }
}

/// One-based (line, column) of a byte offset, counting columns in characters.
pub fn offset_to_line_column(source: &str, line_starts: &[usize], offset: usize) -> (pos: (
    usize,
    usize,
))
    requires
        well_formed_starts(source@, line_starts@),
        is_char_boundary(source@, clamp_offset(source@, offset as int)),
        utf8_len(source@) < usize::MAX,
    ensures
        pos.0 as int == line_column_of(source@, line_starts@, offset as int).0,
        pos.1 as int == line_column_of(source@, line_starts@, offset as int).1,
{
    let chars = chars_of(source);
    let total = str_byte_len(source);
    let ghost s = source@;
    let clamped = if offset < total { offset } else { total };
    let line = line_index(line_starts, clamped);
    let line_start = if line < line_starts.len() { line_starts[line] } else { 0 };
    proof {
        lemma_byte_offset_bound(s, 0);
        assert(s.take(0) =~= Seq::<char>::empty());
        lemma_char_index_of_byte(s, 0);
        if line_starts@.len() > 0 {
            lemma_line_of(line_starts@, clamped as int);
            assert(is_char_boundary(s, line_starts@[line as int] as int));
        }
        let kc = char_index_of_byte(s, clamped as int);
        lemma_byte_offset_bound(s, kc);
    }
    let k0 = advance_to_byte(&chars, 0, 0, line_start);
    let ghost kc = char_index_of_byte(s, clamped as int);
    proof {
        if kc < k0 {
            lemma_byte_offset_monotone(s, kc, k0 as int);
        }
    }
    let k1 = advance_to_byte(&chars, k0, line_start, clamped);
    proof {
        lemma_line_count_bound(line_starts@, clamped as int);
        lemma_chars_le_bytes(s);
    }
    (line + 1, k1 - k0 + 1)
}

proof fn lemma_line_count_bound(starts: Seq<usize>, x: int)
    ensures
        count_le(starts, x) <= starts.len(),
    decreases starts.len(),
{
    if starts.len() > 0 {
        lemma_line_count_bound(starts.drop_last(), x);
    }
}

proof fn lemma_chars_le_bytes(s: Seq<char>)
    ensures
        s.len() <= utf8_len(s),
    decreases s.len(),
{
    if s.len() > 0 {
        lemma_chars_le_bytes(s.drop_last());
    }
}

/// Converting a position back recovers the byte offset: for every character
/// boundary of the text, `utf16_position_to_offset` undoes
/// `offset_to_utf16_position`.
pub proof fn lemma_utf16_round_trip(s: Seq<char>, starts: Seq<usize>, offset: int)
    requires
        well_formed_starts(s, starts),
        starts.len() >= 1,
        is_char_boundary(s, offset),
    ensures
        offset_of_utf16_position(
            s,
            starts,
            utf16_position_of(s, starts, offset).0,
            utf16_position_of(s, starts, offset).1,
        ) == Some(offset),
{
    let ko = char_index_of_byte(s, offset);
    lemma_char_index_of_byte(s, ko);
    lemma_byte_offset_bound(s, ko);
    let clamped = clamp_offset(s, offset);
    assert(clamped == offset);
    lemma_line_of(starts, offset);
    let line = line_of(starts, offset);
    let start = starts[line] as int;
    assert(is_char_boundary(s, start));
    let k0 = char_index_of_byte(s, start);
    lemma_char_index_of_byte(s, k0);
    let end = if line + 1 < starts.len() { starts[line + 1] as int } else { utf8_len(s) as int };
    if line + 1 < starts.len() {
        assert(is_char_boundary(s, starts[line + 1] as int));
    } else {
        lemma_byte_offset_bound(s, 0);
        lemma_char_index_of_byte(s, s.len() as int);
    }
    let k1 = char_index_of_byte(s, end);
    lemma_char_index_of_byte(s, k1);
    lemma_byte_offset_bound(s, k1);
    if ko < k0 {
        lemma_byte_offset_monotone(s, ko, k0);
    }
    if k1 < ko {
        lemma_byte_offset_monotone(s, k1, ko);
    }
    let target = utf16_between(s, k0, ko) as int;
    lemma_first_reaching_exact(s, k0, k0, ko, k1, target);
    if ko == k1 {
        if line + 1 < starts.len() {
            assert(false);
        }
    }
}

proof fn lemma_first_reaching_exact(s: Seq<char>, k0: int, from: int, ko: int, k1: int, target: int)
    requires
        0 <= k0 <= from <= ko <= k1 <= s.len(),
        target == utf16_between(s, k0, ko),
    ensures
        first_reaching(s, k0, from, k1, target) == ko,
    decreases ko - from,
{
    if from < ko {
        lemma_utf16_between_strict(s, k0, from, ko);
        lemma_first_reaching_exact(s, k0, from + 1, ko, k1, target);
    }
}

} // verus!
