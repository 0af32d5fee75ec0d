//! Positions in text: characters versus UTF-8 bytes, and lines.

use vstd::prelude::*;
use vstd::utf8::*;
use vstd::string::StringSliceAdditionalSpecFns;
use crate::strings::chars_of;

verus! {

broadcast use vstd::utf8::char_is_scalar;

/// The number of bytes `c` takes in UTF-8.
pub open spec fn width(c: char) -> nat {
    if (c as u32) <= 0x7F {
        1
    } else if (c as u32) <= 0x7FF {
        2
    } else if (c as u32) <= 0xFFFF {
        3
    } else {
        4
    }
}

/// The number of bytes `s` takes in UTF-8.
pub open spec fn byte_len(s: Seq<char>) -> nat
    decreases s.len(),
{
    if s.len() == 0 {
        0
    } else {
        byte_len(s.drop_last()) + width(s.last())
    }
}

/// The byte length of a concatenation is the sum of the byte lengths.
pub proof fn lemma_byte_len_concat(a: Seq<char>, b: Seq<char>)
    ensures
        byte_len(a + b) == byte_len(a) + byte_len(b),
    decreases b.len(),
{
    if b.len() == 0 {
        assert(a + b =~= a);
    } else {
        lemma_byte_len_concat(a, b.drop_last());
        assert((a + b).drop_last() =~= a + b.drop_last());
    }
}

/// A longer prefix takes strictly more bytes.
pub proof fn lemma_byte_len_prefix(s: Seq<char>, i: int, j: int)
    requires
        0 <= i <= j <= s.len(),
    ensures
        byte_len(s.take(i)) + (j - i) <= byte_len(s.take(j)),
    decreases j - i,
{
    if i < j {
        lemma_byte_len_prefix(s, i, j - 1);
        assert(s.take(j).drop_last() =~= s.take(j - 1));
    }
}

/// The UTF-8 encoding of one character has `width` bytes.
pub proof fn lemma_width_encode(c: char)
    ensures
        encode_scalar(c as u32).len() == width(c),
{
    let v = c as u32;
    assert(is_scalar(v));
}

/// `byte_len` is the length of the UTF-8 encoding.
pub proof fn lemma_byte_len_encode(s: Seq<char>)
    ensures
        encode_utf8(s).len() == byte_len(s),
    decreases s.len(),
{
    if s.len() > 0 {
        lemma_byte_len_encode(s.drop_first());
        lemma_width_encode(s[0]);
        lemma_byte_len_concat(seq![s[0]], s.drop_first());
        assert(seq![s[0]] + s.drop_first() =~= s);
        assert(seq![s[0]].drop_last() =~= Seq::<char>::empty());
        assert(byte_len(Seq::<char>::empty()) == 0);
        assert(byte_len(seq![s[0]]) == width(s[0]));
        assert(encode_utf8(s) == encode_scalar(s[0] as u32) + encode_utf8(s.drop_first()));
    }
}

/// The number of bytes `c` takes in UTF-8.
pub fn char_width(c: char) -> (w: usize)
    ensures
        w == width(c),
{
    let v = c as u32;
    if v <= 0x7F {
        1
    } else if v <= 0x7FF {
        2
    } else if v <= 0xFFFF {
        3
    } else {
        4
    }
}

/// The byte offset of the character at `char_idx`, or the text's byte length
/// when there are no more characters.
pub fn char_to_byte_idx(s: &str, char_idx: usize) -> (res: usize)
    ensures
        res == byte_len(s@.take(if char_idx < s@.len() { char_idx as int } else { s@.len() as int })),
{
    let chars = chars_of(s);
    let total = s.as_bytes().len();
    proof {
        lemma_byte_len_encode(s@);
        assert(s@.take(s@.len() as int) =~= s@);
    }
    let mut acc: usize = 0;
    let mut k: usize = 0;
    while k < chars.len() && k < char_idx
        invariant
            chars@ == s@,
            k <= chars@.len(),
            k <= char_idx,
            total == byte_len(s@),
            acc == byte_len(s@.take(k as int)),
        decreases chars@.len() - k,
    {
        proof {
            lemma_byte_len_prefix(s@, k + 1, s@.len() as int);
            assert(s@.take(s@.len() as int) =~= s@);
            assert(s@.take(k + 1).drop_last() =~= s@.take(k as int));
            assert(s@.take(k + 1).last() == chars@[k as int]);
        }
        acc = acc + char_width(chars[k]);
        k = k + 1;
    }
    acc
}

/// The position of the character that starts at byte `byte_idx`, or the
/// number of characters when no character starts there.
pub fn byte_to_char_idx(s: &str, byte_idx: usize) -> (res: usize)
    ensures
        res <= s@.len(),
        byte_len(s@.take(res as int)) == byte_idx || (res == s@.len()
            && forall|k: int| 0 <= k <= s@.len() ==> byte_len(#[trigger] s@.take(k)) != byte_idx),
{
    let chars = chars_of(s);
    let total = s.as_bytes().len();
    proof {
        lemma_byte_len_encode(s@);
        assert(s@.take(s@.len() as int) =~= s@);
        assert(s@.take(0) =~= Seq::<char>::empty());
    }
    let mut acc: usize = 0;
    let mut k: usize = 0;
    while k < chars.len()
        invariant
            chars@ == s@,
            k <= chars@.len(),
            total == byte_len(s@),
            acc == byte_len(s@.take(k as int)),
            acc <= byte_idx,
            forall|m: int| 0 <= m < k ==> byte_len(#[trigger] s@.take(m)) != byte_idx,
        decreases chars@.len() - k,
    {
        if acc == byte_idx {
            return k;
        }
        proof {
            lemma_byte_len_prefix(s@, k + 1, s@.len() as int);
            assert(s@.take(s@.len() as int) =~= s@);
            assert(s@.take(k + 1).drop_last() =~= s@.take(k as int));
            assert(s@.take(k + 1).last() == chars@[k as int]);
        }
        let next = acc + char_width(chars[k]);
        if next > byte_idx {
            proof {
                assert forall|m: int| 0 <= m <= s@.len() implies byte_len(#[trigger] s@.take(m)) != byte_idx by {
                    if m > k {
                        lemma_byte_len_prefix(s@, k + 1, m);
                    }
                }
            }
            return chars.len();
        }
        acc = next;
        k = k + 1;
    }
    if acc == byte_idx {
        return k;
    }
    k
}

/// The lines of `s`, split at each `'\n'`; a trailing `'\n'` ends with an empty line.
pub open spec fn split_lines(s: Seq<char>) -> Seq<Seq<char>>
    decreases s.len(),
{
    if s.len() == 0 {
        seq![Seq::empty()]
    } else {
        let r = split_lines(s.drop_last());
        if s.last() == '\n' {
            r.push(Seq::empty())
        } else {
            r.update(r.len() - 1, r.last().push(s.last()))
        }
    }
}

/// There is always at least one line.
pub proof fn lemma_split_lines_nonempty(s: Seq<char>)
    ensures
        split_lines(s).len() >= 1,
    decreases s.len(),
{
    if s.len() > 0 {
        lemma_split_lines_nonempty(s.drop_last());
    }
}

/// The character position at which line `i` starts.
pub open spec fn line_offset(lines: Seq<Seq<char>>, i: int) -> int
    decreases i,
{
    if i <= 0 {
        0
    } else {
        line_offset(lines, i - 1) + lines[i - 1].len() + 1
    }
}

/// The offset of line `i` depends on the lines before it only.
pub proof fn lemma_line_offset_prefix(a: Seq<Seq<char>>, b: Seq<Seq<char>>, i: int)
    requires
        forall|j: int| 0 <= j < i ==> a[j] == b[j],
    ensures
        line_offset(a, i) == line_offset(b, i),
    decreases i,
{
    if i > 0 {
        lemma_line_offset_prefix(a, b, i - 1);
    }
}

/// True when line `i` overlaps the character range from `start` to `end`,
/// ends included.
pub open spec fn line_touches(lines: Seq<Seq<char>>, i: int, start: int, end: int) -> bool {
    line_offset(lines, i) <= end && line_offset(lines, i) + lines[i].len() >= start
}

/// The lines that overlap the character range from `start` to `end`, in order.
pub open spec fn touched_lines(lines: Seq<Seq<char>>, start: int, end: int) -> Seq<int>
    decreases lines.len(),
{
    if lines.len() == 0 {
        Seq::empty()
    } else if line_touches(lines, lines.len() - 1, start, end) {
        touched_lines(lines.drop_last(), start, end).push(lines.len() - 1)
    } else {
        touched_lines(lines.drop_last(), start, end)
    }
}

/// The lines a comment toggle acts on: those the selection (character
/// positions, start before end) touches, or,
/// with no selection, the highlighted line (counted from one), or the first line.
pub open spec fn selection_lines(text: Seq<char>, selection: Option<(usize, usize)>, highlighted: Option<usize>) -> Seq<int> {
    match selection {
        Some((start, end)) => touched_lines(split_lines(text), start as int, end as int),
        None => match highlighted {
            Some(n) => if n > 0 { seq![n - 1] } else { seq![0] },
            None => seq![0],
        },
    }
}

/// The lines a comment toggle acts on (see `selection_lines`), in order.
pub fn get_lines_in_selection(text: &str, selection: Option<(usize, usize)>, highlighted_line: Option<usize>)
    -> (res: Vec<usize>)
    ensures
        as_ints(res@) == selection_lines(text@, selection, highlighted_line),
{
    match selection {
        None => {
            let line = match highlighted_line {
                Some(n) => if n > 0 { n - 1 } else { 0 },
                None => 0,
            };
            let v = vec![line];
            assert(as_ints(v@) =~= selection_lines(text@, selection, highlighted_line));
            v
        },
        Some((start, end)) => {
            let chars = chars_of(text);
            proof {
                assert(text@.take(text@.len() as int) =~= text@);
                assert(text@.take(0) =~= Seq::<char>::empty());
            }
            let mut res: Vec<usize> = Vec::new();
            let mut line_idx: usize = 0;
            let mut line_start: usize = 0;
            let mut k: usize = 0;
            while k < chars.len()
                invariant
                    chars@ == text@,
                    k <= chars@.len(),
                    split_lines(text@.take(k as int)).len() == line_idx + 1,
                    line_start == line_offset(split_lines(text@.take(k as int)), line_idx as int),
                    k == line_start + split_lines(text@.take(k as int))[line_idx as int].len(),
                    line_idx <= k,
                    as_ints(res@) == touched_lines(split_lines(text@.take(k as int)).drop_last(), start as int, end as int),
                decreases chars@.len() - k,
            {
                let ghost lines = split_lines(text@.take(k as int));
                let ghost next = split_lines(text@.take(k + 1));
                proof {
                    assert(text@.take(k + 1).drop_last() =~= text@.take(k as int));
                    assert(text@.take(k + 1).last() == chars@[k as int]);
                }
                let c = chars[k];
                if c == '\n' {
                    let touches = line_start <= end && k >= start;
                    let ghost before = res@;
                    if touches {
                        res.push(line_idx);
                    }
                    proof {
                        assert(next == lines.push(Seq::<char>::empty()));
                        assert(next.drop_last() =~= lines);
                        if touches {
                            assert(as_ints(res@) =~= as_ints(before).push(line_idx as int));
                        }
                        lemma_line_offset_prefix(next, lines, line_idx as int);
                        assert(next[line_idx as int] == lines[line_idx as int]);
                    }
                    line_idx = line_idx + 1;
                    line_start = k + 1;
                } else {
                    proof {
                        assert(next == lines.update(lines.len() - 1, lines.last().push(c)));
                        assert(next.drop_last() =~= lines.drop_last());
                        lemma_line_offset_prefix(next, lines, line_idx as int);
                        assert(next[line_idx as int].drop_last() =~= lines[line_idx as int]);
                    }
                }
                k = k + 1;
            }
            let ghost lines = split_lines(text@.take(k as int));
            assert(text@.take(k as int) =~= text@);
            let touches = line_start <= end && k >= start;
            let ghost before = res@;
            if touches {
                res.push(line_idx);
                assert(as_ints(res@) =~= as_ints(before).push(line_idx as int));
            }
            res
        },
    }
}

/// `v` read as a sequence of integers.
pub open spec fn as_ints(v: Seq<usize>) -> Seq<int> {
    v.map_values(|x: usize| x as int)
}

/// The number of `'\n'` in `p`.
pub open spec fn count_newlines(p: Seq<char>) -> nat
    decreases p.len(),
{
    if p.len() == 0 {
        0
    } else {
        count_newlines(p.drop_last()) + if p.last() == '\n' { 1nat } else { 0nat }
    }
}

/// A sequence holds no more line breaks than characters.
pub proof fn lemma_count_newlines_bound(p: Seq<char>)
    ensures
        count_newlines(p) <= p.len(),
    decreases p.len(),
{
    if p.len() > 0 {
        lemma_count_newlines_bound(p.drop_last());
    }
}

/// The number of lines `str::lines` gives for `p`: a final line break ends
/// the last line and opens none.
pub open spec fn lines_count(p: Seq<char>) -> nat {
    if p.len() == 0 {
        0
    } else if p.last() == '\n' {
        count_newlines(p)
    } else {
        count_newlines(p) + 1
    }
}

/// How many lines the editor shows for `text`: one more than its line breaks.
pub fn editor_line_count(text: &str) -> (res: usize)
    requires
        text@.len() < usize::MAX,
    ensures
        res == count_newlines(text@) + 1,
{
    let n = count_newlines_before(text, usize::MAX);
    assert(text@.take(text@.len() as int) =~= text@);
    n + 1
}

/// The number of line breaks among the first `char_idx` characters of `text`
/// (all of them when there are fewer).
pub fn count_newlines_before(text: &str, char_idx: usize) -> (res: usize)
    ensures
        res == count_newlines(text@.take(if char_idx < text@.len() { char_idx as int } else { text@.len() as int })),
        res <= text@.len(),
{
    let chars = chars_of(text);
    let end = if char_idx < chars.len() { char_idx } else { chars.len() };
    let mut count: usize = 0;
    let mut j: usize = 0;
    assert(text@.take(0) =~= Seq::<char>::empty());
    while j < end
        invariant
            chars@ == text@,
            end <= chars@.len(),
            j <= end,
            count == count_newlines(text@.take(j as int)),
            count <= j,
        decreases end - j,
    {
        assert(text@.take(j + 1).drop_last() =~= text@.take(j as int));
        if chars[j] == '\n' {
            count = count + 1;
        }
        j = j + 1;
    }
    count
}

/// The line the caret at character `cursor_char` is on, counted from 1.
pub fn cursor_line(text: &str, cursor_char: usize) -> (res: usize)
    requires
        text@.len() < usize::MAX,
    ensures
        res == count_newlines(text@.take(if cursor_char < text@.len() { cursor_char as int } else { text@.len() as int })) + 1,
{
    count_newlines_before(text, cursor_char) + 1
}

/// The selection between the caret at character `primary` and the other
/// end at character `secondary`, as character positions in order.
pub fn selection_range(primary: usize, secondary: usize) -> (res: (usize, usize))
    ensures
        res.0 == if primary < secondary { primary } else { secondary },
        res.1 == if primary < secondary { secondary } else { primary },
{
    if primary < secondary { (primary, secondary) } else { (secondary, primary) }
}

} // verus!
