//! Editing commands of the text editor: commenting lines, indentation,
//! new lines that keep indentation, cutting and copying.

use vstd::prelude::*;
use crate::text::as_ints;
use crate::strings::{chars_of, push_char, string_from_chars};
use crate::text::{byte_len, width, char_width, split_lines, lemma_split_lines_nonempty, lemma_byte_len_prefix};

verus! {

/// True when `c` has Unicode's White_Space property, as `char::is_whitespace`
/// documents it.
pub open spec fn is_space(c: char) -> bool {
    let v = c as u32;
    (0x9 <= v <= 0xD) || v == 0x20 || v == 0x85 || v == 0xA0 || v == 0x1680
        || (0x2000 <= v <= 0x200A) || v == 0x2028 || v == 0x2029 || v == 0x202F
        || v == 0x205F || v == 0x3000
}

/// True when `c` has Unicode's White_Space property.
pub fn is_whitespace(c: char) -> (res: bool)
    ensures
        res == is_space(c),
{
    let v = c as u32;
    (0x9 <= v && v <= 0xD) || v == 0x20 || v == 0x85 || v == 0xA0 || v == 0x1680
        || (0x2000 <= v && v <= 0x200A) || v == 0x2028 || v == 0x2029 || v == 0x202F
        || v == 0x205F || v == 0x3000
}

/// The number of white-space characters that begin `s`.
pub open spec fn leading_ws(s: Seq<char>) -> nat
    decreases s.len(),
{
    if s.len() > 0 && is_space(s[0]) {
        1 + leading_ws(s.drop_first())
    } else {
        0
    }
}

/// `s` without its leading white space.
pub open spec fn trim_start(s: Seq<char>) -> Seq<char> {
    s.skip(leading_ws(s) as int)
}

/// True when `s` begins with `p`.
pub open spec fn starts_with(s: Seq<char>, p: Seq<char>) -> bool {
    p.len() <= s.len() && s.take(p.len() as int) == p
}

/// `n` spaces.
pub open spec fn spaces(n: nat) -> Seq<char> {
    Seq::new(n, |i: int| ' ')
}

/// The lines joined with `'\n'` between them.
pub open spec fn join_lines(lines: Seq<Seq<char>>) -> Seq<char>
    decreases lines.len(),
{
    if lines.len() == 0 {
        Seq::empty()
    } else if lines.len() == 1 {
        lines[0]
    } else {
        join_lines(lines.drop_last()).push('\n') + lines.last()
    }
}

/// A line commented (or, when `uncomment`, uncommented) with `prefix`. The
/// leading white space is rewritten as one space per byte it took.
pub open spec fn toggled_line(line: Seq<char>, prefix: Seq<char>, uncomment: bool) -> Seq<char> {
    let w = leading_ws(line);
    let t = line.skip(w as int);
    let indent = spaces(byte_len(line.take(w as int)));
    let ps = prefix.push(' ');
    if uncomment {
        if starts_with(t, ps) {
            indent + t.skip(ps.len() as int)
        } else if starts_with(t, prefix) {
            indent + t.skip(prefix.len() as int)
        } else {
            line
        }
    } else if !starts_with(t, prefix) {
        indent + ps + t
    } else {
        line
    }
}

/// True when every selected line exists and already begins, after its white
/// space, with `prefix`: the toggle then removes the prefix.
pub open spec fn all_commented(lines: Seq<Seq<char>>, selected: Seq<int>, prefix: Seq<char>) -> bool {
    forall|k: int| 0 <= k < selected.len() ==> 0 <= #[trigger] selected[k] < lines.len()
        && starts_with(trim_start(lines[selected[k]]), prefix)
}

/// The lines after a comment toggle.
pub open spec fn toggled_lines(lines: Seq<Seq<char>>, selected: Seq<int>, prefix: Seq<char>) -> Seq<Seq<char>> {
    let uncomment = all_commented(lines, selected, prefix);
    Seq::new(lines.len(), |i: int| if selected.contains(i) { toggled_line(lines[i], prefix, uncomment) } else { lines[i] })
}

/// How far the caret moves after a toggle: past the new prefix and its space
/// when a single empty line was commented, otherwise not at all.
pub open spec fn caret_shift(lines: Seq<Seq<char>>, selected: Seq<int>, prefix: Seq<char>) -> nat {
    if selected.len() == 1 && 0 <= selected[0] < lines.len()
        && trim_start(lines[selected[0]]).len() == 0 && !all_commented(lines, selected, prefix) {
        prefix.len() + 1
    } else {
        0
    }
}

/// The characters of `s` split into lines.
fn split_char_lines(s: &Vec<char>) -> (res: Vec<Vec<char>>)
    ensures
        res@.len() == split_lines(s@).len(),
        forall|i: int| 0 <= i < res@.len() ==> (#[trigger] res@[i])@ == split_lines(s@)[i],
{
    let mut res: Vec<Vec<char>> = Vec::new();
    let mut cur: Vec<char> = Vec::new();
    let mut k: usize = 0;
    assert(s@.take(0) =~= Seq::<char>::empty());
    while k < s.len()
        invariant
            k <= s@.len(),
            res@.len() + 1 == split_lines(s@.take(k as int)).len(),
            forall|i: int| 0 <= i < res@.len() ==> (#[trigger] res@[i])@ == split_lines(s@.take(k as int))[i],
            cur@ == split_lines(s@.take(k as int)).last(),
        decreases s@.len() - k,
    {
        proof {
            lemma_split_lines_nonempty(s@.take(k as int));
            assert(s@.take(k + 1).drop_last() =~= s@.take(k as int));
            assert(s@.take(k + 1).last() == s@[k as int]);
        }
        let c = s[k];
        if c == '\n' {
            let done = cur;
            res.push(done);
            cur = Vec::new();
        } else {
            cur.push(c);
        }
        k = k + 1;
    }
    assert(s@.take(k as int) =~= s@);
    res.push(cur);
    res
}

/// The number of white-space characters at the start of `line`, and the bytes they take.
fn leading_ws_exec(line: &Vec<char>) -> (res: (usize, usize))
    requires
        line@.len() <= usize::MAX / 8,
    ensures
        res.0 == leading_ws(line@),
        res.0 <= line@.len(),
        res.1 == byte_len(line@.take(res.0 as int)),
{
    let mut i: usize = 0;
    let mut bytes: usize = 0;
    assert(line@.take(0) =~= Seq::<char>::empty());
    while i < line.len() && is_whitespace(line[i])
        invariant
            i <= line@.len(),
            line@.len() <= usize::MAX / 8,
            forall|j: int| 0 <= j < i ==> is_space(#[trigger] line@[j]),
            bytes == byte_len(line@.take(i as int)),
            bytes <= 4 * i,
        decreases line@.len() - i,
    {
        assert(line@.take(i + 1).drop_last() =~= line@.take(i as int));
        bytes = bytes + char_width(line[i]);
        i = i + 1;
    }
    proof { lemma_leading_ws(line@, i as int); }
    (i, bytes)
}

/// When the first `i` characters are white space and the next is not (or
/// there is none), `leading_ws` is `i`.
proof fn lemma_leading_ws(s: Seq<char>, i: int)
    requires
        0 <= i <= s.len(),
        forall|j: int| 0 <= j < i ==> is_space(#[trigger] s[j]),
        i < s.len() ==> !is_space(s[i]),
    ensures
        leading_ws(s) == i,
    decreases i,
{
    if i > 0 {
        assert forall|j: int| 0 <= j < i - 1 implies is_space(#[trigger] s.drop_first()[j]) by {
            assert(s.drop_first()[j] == s[j + 1]);
        }
        lemma_leading_ws(s.drop_first(), i - 1);
    }
}

/// True when `line[from..]` begins with `p`.
fn starts_with_from(line: &Vec<char>, from: usize, p: &Vec<char>) -> (res: bool)
    requires
        from <= line@.len(),
    ensures
        res == starts_with(line@.skip(from as int), p@),
{
    if p.len() > line.len() - from {
        return false;
    }
    let mut k: usize = 0;
    while k < p.len()
        invariant
            from + p@.len() <= line@.len(),
            line@.len() == line.len(),
            k <= p@.len(),
            forall|m: int| 0 <= m < k ==> line@[from + m] == p@[m],
        decreases p@.len() - k,
    {
        if line[from + k] != p[k] {
            assert(line@.skip(from as int).take(p@.len() as int)[k as int] != p@[k as int]);
            return false;
        }
        k = k + 1;
    }
    assert(line@.skip(from as int).take(p@.len() as int) =~= p@);
    true
}

/// True when the line is a comment: after its leading white space it
/// begins with `//`. The editor draws such lines in the comment colour.
pub fn is_comment_line(line: &str) -> (res: bool)
    ensures
        res == starts_with(trim_start(line@), seq!['/', '/']),
{
    let v = chars_of(line);
    let mut i: usize = 0;
    while i < v.len() && is_whitespace(v[i])
        invariant
            v@ == line@,
            i <= v@.len(),
            forall|j: int| 0 <= j < i ==> is_space(#[trigger] v@[j]),
        decreases v@.len() - i,
    {
        i = i + 1;
    }
    proof { lemma_leading_ws(v@, i as int); }
    let p: Vec<char> = vec!['/', '/'];
    assert(p@ =~= seq!['/', '/']);
    starts_with_from(&v, i, &p)
}

/// True when `v` holds `x`.
fn contains_index(v: &[usize], x: usize) -> (res: bool)
    ensures
        res == as_ints(v@).contains(x as int),
{
    let mut k: usize = 0;
    while k < v.len()
        invariant
            k <= v@.len(),
            forall|m: int| 0 <= m < k ==> v@[m] != x,
        decreases v@.len() - k,
    {
        if v[k] == x {
            assert(as_ints(v@)[k as int] == x as int);
            return true;
        }
        k = k + 1;
    }
    proof {
        if as_ints(v@).contains(x as int) {
            let m = choose|m: int| 0 <= m < as_ints(v@).len() && as_ints(v@)[m] == x as int;
            assert(v@[m] == x);
        }
    }
    false
}

/// Appends `v[from..]` to `out`.
fn push_chars_from(out: &mut String, v: &Vec<char>, from: usize)
    requires
        from <= v@.len(),
    ensures
        final(out)@ == old(out)@ + v@.skip(from as int),
{
    let mut i: usize = from;
    while i < v.len()
        invariant
            from <= i <= v@.len(),
            out@ == old(out)@ + v@.subrange(from as int, i as int),
        decreases v@.len() - i,
    {
        push_char(out, v[i]);
        assert(out@ =~= old(out)@ + v@.subrange(from as int, i + 1));
        i = i + 1;
    }
    assert(v@.subrange(from as int, i as int) =~= v@.skip(from as int));
}

/// Appends `n` spaces to `out`.
fn push_spaces(out: &mut String, n: usize)
    ensures
        final(out)@ == old(out)@ + spaces(n as nat),
{
    let mut i: usize = 0;
    while i < n
        invariant
            i <= n,
            out@ == old(out)@ + spaces(i as nat),
        decreases n - i,
    {
        push_char(out, ' ');
        assert(out@ =~= old(out)@ + spaces((i + 1) as nat));
        i = i + 1;
    }
}

/// Appends `line` commented or uncommented with `prefix` to `out`.
fn push_toggled_line(out: &mut String, line: &Vec<char>, prefix: &Vec<char>, prefix_space: &Vec<char>, uncomment: bool)
    requires
        prefix_space@ == prefix@.push(' '),
        line@.len() <= usize::MAX / 8,
    ensures
        final(out)@ == old(out)@ + toggled_line(line@, prefix@, uncomment),
{
    let (w, indent_bytes) = leading_ws_exec(line);
    let ghost t = line@.skip(w as int);
    if uncomment {
        if starts_with_from(line, w, prefix_space) {
            push_spaces(out, indent_bytes);
            push_chars_from(out, line, w + prefix_space.len());
            assert(line@.skip(w + prefix_space@.len()) =~= t.skip(prefix_space@.len() as int));
            assert(out@ =~= old(out)@ + toggled_line(line@, prefix@, uncomment));
        } else if starts_with_from(line, w, prefix) {
            push_spaces(out, indent_bytes);
            push_chars_from(out, line, w + prefix.len());
            assert(line@.skip(w + prefix@.len()) =~= t.skip(prefix@.len() as int));
            assert(out@ =~= old(out)@ + toggled_line(line@, prefix@, uncomment));
        } else {
            push_chars_from(out, line, 0);
            assert(line@.skip(0) =~= line@);
        }
    } else if !starts_with_from(line, w, prefix) {
        push_spaces(out, indent_bytes);
        push_chars_from(out, prefix_space, 0);
        push_chars_from(out, line, w);
        assert(prefix_space@.skip(0) =~= prefix_space@);
        assert(out@ =~= old(out)@ + toggled_line(line@, prefix@, uncomment));
    } else {
        push_chars_from(out, line, 0);
        assert(line@.skip(0) =~= line@);
    }
}

/// Comments the lines `lines_to_toggle` of `text` with `comment_prefix`, or
/// uncomments them when all of them already begin with it. Returns the new
/// text and how far the caret moves; `None` when there is no line to toggle.
pub fn toggle_comment_lines(text: &str, lines_to_toggle: &[usize], comment_prefix: &str)
    -> (res: Option<(String, usize)>)
    requires
        text@.len() <= usize::MAX / 8,
        comment_prefix@.len() < usize::MAX,
    ensures
        lines_to_toggle@.len() == 0 ==> res is None,
        lines_to_toggle@.len() > 0 ==> (res matches Some(r) && r.0@ == join_lines(
            toggled_lines(split_lines(text@), as_ints(lines_to_toggle@), comment_prefix@),
        ) && r.1 == caret_shift(split_lines(text@), as_ints(lines_to_toggle@), comment_prefix@)),
{
    if lines_to_toggle.len() == 0 {
        return None;
    }
    let chars = chars_of(text);
    let lines = split_char_lines(&chars);
    let prefix = chars_of(comment_prefix);
    let mut prefix_space = chars_of(comment_prefix);
    prefix_space.push(' ');
    let ghost ls = split_lines(text@);
    let ghost sel = as_ints(lines_to_toggle@);
    proof { lemma_line_lengths(text@); }

    let mut uncomment = true;
    let mut k: usize = 0;
    while k < lines_to_toggle.len()
        invariant
            lines@.len() == ls.len(),
            forall|i: int| 0 <= i < lines@.len() ==> (#[trigger] lines@[i])@ == ls[i],
            prefix@ == comment_prefix@,
            sel == as_ints(lines_to_toggle@),
            forall|j: int| 0 <= j < ls.len() ==> (#[trigger] ls[j]).len() <= usize::MAX / 8,
            k <= lines_to_toggle@.len(),
            uncomment == forall|m: int| 0 <= m < k ==> 0 <= #[trigger] sel[m] < ls.len()
                && starts_with(trim_start(ls[sel[m]]), prefix@),
        decreases lines_to_toggle@.len() - k,
    {
        let idx = lines_to_toggle[k];
        assert(sel[k as int] == idx as int);
        let ok = if idx < lines.len() {
            let (w, _) = leading_ws_exec(&lines[idx]);
            starts_with_from(&lines[idx], w, &prefix)
        } else {
            false
        };
        uncomment = uncomment && ok;
        k = k + 1;
    }
    assert(uncomment == all_commented(ls, sel, comment_prefix@));

    let first = lines_to_toggle[0];
    assert(sel[0] == first as int);
    let was_empty = lines_to_toggle.len() == 1 && first < lines.len() && {
        let (w, _) = leading_ws_exec(&lines[first]);
        w == lines[first].len()
    };
    let shift = if was_empty && !uncomment { prefix_space.len() } else { 0 };

    let ghost new_lines = toggled_lines(ls, sel, comment_prefix@);
    let mut out = String::new();
    let mut i: usize = 0;
    proof { lemma_split_lines_nonempty(text@); }
    while i < lines.len()
        invariant
            lines@.len() == ls.len(),
            ls.len() >= 1,
            forall|j: int| 0 <= j < lines@.len() ==> (#[trigger] lines@[j])@ == ls[j],
            forall|j: int| 0 <= j < ls.len() ==> (#[trigger] ls[j]).len() <= usize::MAX / 8,
            prefix@ == comment_prefix@,
            prefix_space@ == prefix@.push(' '),
            sel == as_ints(lines_to_toggle@),
            uncomment == all_commented(ls, sel, comment_prefix@),
            new_lines == toggled_lines(ls, sel, comment_prefix@),
            i <= lines@.len(),
            out@ == join_lines(new_lines.take(i as int)),
        decreases lines@.len() - i,
    {
        let ghost before = out@;
        if i > 0 {
            push_char(&mut out, '\n');
        }
        if contains_index(lines_to_toggle, i) {
            push_toggled_line(&mut out, &lines[i], &prefix, &prefix_space, uncomment);
        } else {
            push_chars_from(&mut out, &lines[i], 0);
            assert(lines@[i as int]@.skip(0) =~= lines@[i as int]@);
        }
        proof {
            let t = new_lines.take(i + 1);
            assert(t.drop_last() =~= new_lines.take(i as int));
            assert(t.last() == new_lines[i as int]);
            if i == 0 {
                assert(new_lines.take(0) =~= Seq::<Seq<char>>::empty());
                assert(out@ =~= join_lines(t));
            } else {
                assert(out@ =~= join_lines(t));
            }
        }
        i = i + 1;
    }
    assert(new_lines.take(i as int) =~= new_lines);
    Some((out, shift))
}

/// No line is longer than the text.
proof fn lemma_line_lengths(s: Seq<char>)
    ensures
        forall|j: int| 0 <= j < split_lines(s).len() ==> (#[trigger] split_lines(s)[j]).len() <= s.len(),
    decreases s.len(),
{
    if s.len() > 0 {
        lemma_line_lengths(s.drop_last());
        lemma_split_lines_nonempty(s.drop_last());
    }
}

/// True when `s` holds no line break.
pub open spec fn no_newline(s: Seq<char>) -> bool {
    forall|i: int| 0 <= i < s.len() ==> s[i] != '\n'
}

/// No line of `split_lines(s)` holds a line break.
pub proof fn lemma_split_lines_no_newline(s: Seq<char>)
    ensures
        forall|k: int| 0 <= k < split_lines(s).len() ==> no_newline(#[trigger] split_lines(s)[k]),
    decreases s.len(),
{
    if s.len() > 0 {
        lemma_split_lines_no_newline(s.drop_last());
        lemma_split_lines_nonempty(s.drop_last());
        let r = split_lines(s.drop_last());
        if s.last() != '\n' {
            assert(no_newline(r.last()));
            assert(no_newline(r.last().push(s.last())));
        }
    }
}

/// Joining after adding a character to the last line adds the character at the end.
proof fn lemma_join_extend_last(ls: Seq<Seq<char>>, c: char)
    requires
        ls.len() >= 1,
    ensures
        join_lines(ls.update(ls.len() - 1, ls.last().push(c))) == join_lines(ls).push(c),
{
    let u = ls.update(ls.len() - 1, ls.last().push(c));
    if ls.len() >= 2 {
        assert(u.drop_last() =~= ls.drop_last());
    }
}

/// Joining the lines of a text gives the text back.
pub proof fn lemma_join_split(s: Seq<char>)
    ensures
        join_lines(split_lines(s)) == s,
    decreases s.len(),
{
    if s.len() > 0 {
        let t = s.drop_last();
        lemma_join_split(t);
        lemma_split_lines_nonempty(t);
        let r = split_lines(t);
        if s.last() == '\n' {
            assert(r.push(Seq::<char>::empty()).drop_last() =~= r);
            assert(join_lines(r).push('\n') + Seq::<char>::empty() =~= s);
        } else {
            lemma_join_extend_last(r, s.last());
            assert(t.push(s.last()) =~= s);
        }
    } else {
        assert(split_lines(s) =~= seq![Seq::<char>::empty()]);
    }
}

/// A text without line breaks is one line.
proof fn lemma_split_single(b: Seq<char>)
    requires
        no_newline(b),
    ensures
        split_lines(b) == seq![b],
    decreases b.len(),
{
    if b.len() > 0 {
        lemma_split_single(b.drop_last());
        assert(b.last() != '\n');
        assert(b.drop_last().push(b.last()) =~= b);
        assert(seq![b.drop_last()].update(0, b.drop_last().push(b.last())) =~= seq![b]);
    } else {
        assert(b =~= Seq::<char>::empty());
    }
}

/// A line break followed by text without one adds that text as a new line.
proof fn lemma_split_append_line(a: Seq<char>, b: Seq<char>)
    requires
        no_newline(b),
    ensures
        split_lines(a.push('\n') + b) == split_lines(a).push(b),
    decreases b.len(),
{
    if b.len() == 0 {
        assert(a.push('\n') + b =~= a.push('\n'));
        assert(a.push('\n').drop_last() =~= a);
        assert(b =~= Seq::<char>::empty());
        assert(split_lines(a.push('\n')) == split_lines(a).push(Seq::<char>::empty()));
    } else {
        let b1 = b.drop_last();
        lemma_split_append_line(a, b1);
        let s = a.push('\n') + b;
        assert(s.drop_last() =~= a.push('\n') + b1);
        assert(s.last() == b.last());
        let r = split_lines(a).push(b1);
        assert(b.last() != '\n');
        assert(b1.push(b.last()) =~= b);
        assert(r.update(r.len() - 1, r.last().push(b.last())) =~= split_lines(a).push(b));
        assert(split_lines(s) == split_lines(s.drop_last()).update(
            split_lines(s.drop_last()).len() - 1, split_lines(s.drop_last()).last().push(s.last())));
    }
}

/// Lines without line breaks split back out of their join.
pub proof fn lemma_split_join_lines(ls: Seq<Seq<char>>)
    requires
        ls.len() >= 1,
        forall|k: int| 0 <= k < ls.len() ==> no_newline(#[trigger] ls[k]),
    ensures
        split_lines(join_lines(ls)) == ls,
    decreases ls.len(),
{
    if ls.len() == 1 {
        lemma_split_single(ls[0]);
        assert(seq![ls[0]] =~= ls);
    } else {
        let init = ls.drop_last();
        assert forall|k: int| 0 <= k < init.len() implies no_newline(#[trigger] init[k]) by {
            assert(init[k] == ls[k]);
        }
        lemma_split_join_lines(init);
        assert(no_newline(ls[ls.len() - 1]));
        lemma_split_append_line(join_lines(init), ls.last());
        assert(init.push(ls.last()) =~= ls);
    }
}

/// True when the white space that begins `line` is spaces only.
pub open spec fn indented_with_spaces(line: Seq<char>) -> bool {
    forall|j: int| 0 <= j < leading_ws(line) ==> line[j] == ' '
}

/// `n` spaces take `n` bytes.
proof fn lemma_spaces_bytes(n: nat)
    ensures
        byte_len(spaces(n)) == n,
    decreases n,
{
    if n > 0 {
        lemma_spaces_bytes((n - 1) as nat);
        assert(spaces(n).drop_last() =~= spaces((n - 1) as nat));
    }
}

/// The leading white space counts at most the characters there are.
proof fn lemma_leading_ws_bound(s: Seq<char>)
    ensures
        leading_ws(s) <= s.len(),
        forall|j: int| 0 <= j < leading_ws(s) ==> is_space(#[trigger] s[j]),
        leading_ws(s) < s.len() ==> !is_space(s[leading_ws(s) as int]),
    decreases s.len(),
{
    if s.len() > 0 && is_space(s[0]) {
        lemma_leading_ws_bound(s.drop_first());
        assert forall|j: int| 0 <= j < leading_ws(s) implies is_space(#[trigger] s[j]) by {
            if j > 0 {
                assert(s[j] == s.drop_first()[j - 1]);
            }
        }
    }
}

/// Commenting a line whose indentation is spaces, and that is not commented,
/// then uncommenting it, gives the line back; the commented line begins,
/// after its white space, with the prefix.
proof fn lemma_toggle_line_twice(line: Seq<char>, prefix: Seq<char>)
    requires
        prefix.len() > 0,
        !is_space(prefix[0]),
        indented_with_spaces(line),
        !starts_with(trim_start(line), prefix),
    ensures
        toggled_line(toggled_line(line, prefix, false), prefix, true) == line,
        starts_with(trim_start(toggled_line(line, prefix, false)), prefix),
        toggled_line(line, prefix, false).len() == line.len() + prefix.len() + 1,
{
    let w = leading_ws(line);
    lemma_leading_ws_bound(line);
    let indent = line.take(w as int);
    let t = line.skip(w as int);
    assert(indent =~= spaces(w));
    lemma_spaces_bytes(w);
    let ps = prefix.push(' ');
    let c = spaces(w) + ps + t;
    assert(toggled_line(line, prefix, false) == c);
    assert forall|j: int| 0 <= j < w implies is_space(#[trigger] c[j]) by {
        assert(c[j] == ' ');
    }
    assert(c[w as int] == prefix[0]);
    lemma_leading_ws(c, w as int);
    assert(c.take(w as int) =~= spaces(w));
    let t2 = c.skip(w as int);
    assert(t2 =~= ps + t);
    assert(t2.take(ps.len() as int) =~= ps);
    assert(t2.take(prefix.len() as int) =~= prefix);
    assert(t2.skip(ps.len() as int) =~= t);
    assert(spaces(w) + t =~= line);
}

/// Commenting lines whose indentation is spaces and none of which is
/// commented, then toggling the same lines again, gives the text back. The
/// prefix must hold no line break and not begin with white space.
pub proof fn lemma_toggle_comment_twice(text: Seq<char>, selected: Seq<int>, prefix: Seq<char>)
    requires
        selected.len() > 0,
        prefix.len() > 0,
        !is_space(prefix[0]),
        no_newline(prefix),
        forall|k: int| 0 <= k < selected.len() ==> 0 <= #[trigger] selected[k] < split_lines(text).len(),
        forall|k: int| 0 <= k < selected.len() ==> indented_with_spaces(split_lines(text)[#[trigger] selected[k]]),
        forall|k: int| 0 <= k < selected.len() ==> !starts_with(trim_start(split_lines(text)[#[trigger] selected[k]]), prefix),
    ensures
        ({
            let once = join_lines(toggled_lines(split_lines(text), selected, prefix));
            join_lines(toggled_lines(split_lines(once), selected, prefix)) == text
        }),
        join_lines(toggled_lines(split_lines(text), selected, prefix)).len()
            <= text.len() + (text.len() + 1) * (prefix.len() + 1),
{
    let ls = split_lines(text);
    lemma_split_lines_nonempty(text);
    lemma_split_lines_no_newline(text);
    assert(!all_commented(ls, selected, prefix)) by {
        assert(!starts_with(trim_start(ls[selected[0]]), prefix));
    }
    let l1 = toggled_lines(ls, selected, prefix);
    assert forall|i: int| 0 <= i < l1.len() implies no_newline(#[trigger] l1[i]) by {
        if selected.contains(i) {
            let k = choose|k: int| 0 <= k < selected.len() && selected[k] == i;
            lemma_toggle_line_twice(ls[i], prefix);
            let line = ls[i];
            let w = leading_ws(line);
            lemma_leading_ws_bound(line);
            let c = spaces(byte_len(line.take(w as int))) + prefix.push(' ') + line.skip(w as int);
            assert(l1[i] == c);
            assert forall|j: int| 0 <= j < c.len() implies c[j] != '\n' by {
                let n = byte_len(line.take(w as int)) as int;
                if j < n {
                } else if j < n + prefix.len() {
                    assert(c[j] == prefix[j - n]);
                } else if j == n + prefix.len() {
                } else {
                    assert(c[j] == line[w + (j - n - prefix.len() - 1)]);
                }
            }
        }
    }
    lemma_split_join_lines(l1);
    assert forall|k: int| 0 <= k < selected.len() implies 0 <= #[trigger] selected[k] < l1.len()
        && starts_with(trim_start(l1[selected[k]]), prefix) by {
        assert(selected.contains(selected[k]));
        lemma_toggle_line_twice(ls[selected[k]], prefix);
    }
    assert(all_commented(l1, selected, prefix));
    let l2 = toggled_lines(l1, selected, prefix);
    assert forall|i: int| 0 <= i < ls.len() implies #[trigger] l2[i] == ls[i] by {
        if selected.contains(i) {
            let k = choose|k: int| 0 <= k < selected.len() && selected[k] == i;
            lemma_toggle_line_twice(ls[i], prefix);
        }
    }
    assert(l2 =~= ls);
    lemma_join_split(text);
    assert forall|i: int| 0 <= i < ls.len() implies (#[trigger] l1[i]).len() <= ls[i].len() + prefix.len() + 1 by {
        if selected.contains(i) {
            lemma_toggle_line_twice(ls[i], prefix);
        }
    }
    lemma_join_lines_len(ls, l1, prefix.len() + 1);
    lemma_split_lines_count(text);
    assert(ls.len() * (prefix.len() + 1) <= (text.len() + 1) * (prefix.len() + 1)) by (nonlinear_arith)
        requires ls.len() <= text.len() + 1;
}

/// Lines that each grow by at most `c` join to a text at most `c` times
/// their number longer.
proof fn lemma_join_lines_len(a: Seq<Seq<char>>, b: Seq<Seq<char>>, c: nat)
    requires
        a.len() == b.len(),
        forall|i: int| 0 <= i < a.len() ==> (#[trigger] b[i]).len() <= a[i].len() + c,
    ensures
        join_lines(b).len() <= join_lines(a).len() + a.len() * c,
    decreases a.len(),
{
    if a.len() > 1 {
        lemma_join_lines_len(a.drop_last(), b.drop_last(), c);
        assert(b.last().len() <= a.last().len() + c);
        assert(a.len() * c == (a.len() - 1) * c + c) by (nonlinear_arith);
    } else if a.len() == 1 {
        assert(b[0].len() <= a[0].len() + c);
    }
}

/// A text has at most one more line than it has characters.
proof fn lemma_split_lines_count(s: Seq<char>)
    ensures
        split_lines(s).len() <= s.len() + 1,
    decreases s.len(),
{
    if s.len() > 0 {
        lemma_split_lines_count(s.drop_last());
        lemma_split_lines_nonempty(s.drop_last());
    }
}

/// `c` held to at most `n`.
pub open spec fn clamp(c: int, n: int) -> int {
    if c < n { c } else { n }
}

/// Where the line that holds position `c` of `s` begins: just after the last
/// `'\n'` before `c`, or 0.
pub open spec fn line_start(s: Seq<char>, c: int) -> int
    decreases c,
{
    if c <= 0 {
        0
    } else if s[c - 1] == '\n' {
        c
    } else {
        line_start(s, c - 1)
    }
}

/// The number of spaces (other white space not counted) that follow one
/// another from position `from` of `s`.
pub open spec fn spaces_from(s: Seq<char>, from: int) -> nat
    decreases s.len() - from,
{
    if 0 <= from < s.len() && s[from] == ' ' {
        1 + spaces_from(s, from + 1)
    } else {
        0
    }
}

/// What one press of Tab inserts: `tab_size` spaces, or one tab character.
pub open spec fn tab_text(use_spaces: bool, tab_size: nat) -> Seq<char> {
    if use_spaces {
        spaces(tab_size)
    } else {
        seq!['\t']
    }
}

/// How many characters Shift+Tab removes at the start `ls` of a line: one
/// indentation level of spaces, else the spaces there are, else one tab;
/// `None` when the line begins with neither.
pub open spec fn unindent_width(s: Seq<char>, ls: int, use_spaces: bool, tab_size: nat) -> Option<nat> {
    let lead = spaces_from(s, ls);
    if use_spaces && lead >= tab_size {
        Some(tab_size)
    } else if lead > 0 {
        Some(lead)
    } else if 0 <= ls < s.len() && s[ls] == '\t' {
        Some(1)
    } else {
        None
    }
}

/// What Tab (Shift+Tab when `unindent`) does to `s` with the caret at
/// `primary` and the selection's other end at `secondary`: the new text and
/// caret, or `None` when the text stays as it is.
pub open spec fn tab_edit(s: Seq<char>, primary: int, secondary: int, unindent: bool, use_spaces: bool, tab_size: nat)
    -> Option<(Seq<char>, int)>
{
    let c = clamp(primary, s.len() as int);
    let tab = tab_text(use_spaces, tab_size);
    if primary != secondary {
        None
    } else if !unindent {
        Some((s.take(c) + tab + s.skip(c), primary + tab.len()))
    } else {
        let ls = line_start(s, c);
        match unindent_width(s, ls, use_spaces, tab_size) {
            Some(k) => Some((s.take(ls) + s.skip(ls + k), if c - k > ls { c - k } else { ls })),
            None => None,
        }
    }
}

/// The smaller end of a selection.
pub open spec fn sel_lo(primary: int, secondary: int) -> int {
    if primary < secondary { primary } else { secondary }
}

/// The larger end of a selection.
pub open spec fn sel_hi(primary: int, secondary: int) -> int {
    if primary < secondary { secondary } else { primary }
}

/// What Enter does: the selection is replaced by a new line that repeats the
/// white space which begins the caret's line up to the caret. Returns the
/// new text and caret.
pub open spec fn enter_edit(s: Seq<char>, primary: int, secondary: int) -> (Seq<char>, int) {
    let n = s.len() as int;
    let cp = clamp(primary, n);
    let cur = s.subrange(line_start(s, cp), cp);
    let ins = seq!['\n'] + cur.take(leading_ws(cur) as int);
    let lo = sel_lo(primary, secondary);
    (s.take(clamp(lo, n)) + ins + s.skip(clamp(sel_hi(primary, secondary), n)), lo + ins.len())
}

/// The selected text, `None` when the selection is empty.
pub open spec fn selected_text(s: Seq<char>, primary: int, secondary: int) -> Option<Seq<char>> {
    let n = s.len() as int;
    let a = clamp(sel_lo(primary, secondary), n);
    let b = clamp(sel_hi(primary, secondary), n);
    if a == b {
        None
    } else {
        Some(s.subrange(a, b))
    }
}

/// What cutting does: the selected text, the text without it and the new
/// caret; `None` when the selection is empty.
pub open spec fn cut_edit(s: Seq<char>, primary: int, secondary: int) -> Option<(Seq<char>, Seq<char>, int)> {
    let n = s.len() as int;
    let lo = sel_lo(primary, secondary);
    let a = clamp(lo, n);
    let b = clamp(sel_hi(primary, secondary), n);
    if a == b {
        None
    } else {
        Some((s.subrange(a, b), s.take(a) + s.skip(b), lo))
    }
}

/// The line start is at most the position and no line break lies between them.
pub proof fn lemma_line_start(s: Seq<char>, c: int)
    requires
        0 <= c <= s.len(),
    ensures
        0 <= line_start(s, c) <= c,
        forall|j: int| line_start(s, c) <= j < c ==> s[j] != '\n',
    decreases c,
{
    if c > 0 && s[c - 1] != '\n' {
        lemma_line_start(s, c - 1);
    }
}

/// The spaces counted by `spaces_from` are spaces, within the text.
proof fn lemma_spaces_from_run(s: Seq<char>, from: int)
    requires
        0 <= from,
    ensures
        from + spaces_from(s, from) <= s.len() || spaces_from(s, from) == 0,
        forall|j: int| from <= j < from + spaces_from(s, from) ==> s[j] == ' ',
    decreases s.len() - from,
{
    if 0 <= from < s.len() && s[from] == ' ' {
        lemma_spaces_from_run(s, from + 1);
    }
}

/// A run of spaces from `a` to `b` counts towards `spaces_from(s, a)`.
proof fn lemma_spaces_from_at_least(s: Seq<char>, a: int, b: int)
    requires
        0 <= a <= b <= s.len(),
        forall|j: int| a <= j < b ==> s[j] == ' ',
    ensures
        spaces_from(s, a) >= b - a,
    decreases b - a,
{
    if a < b {
        lemma_spaces_from_at_least(s, a + 1, b);
    }
}

/// A line start is 0 or follows a line break.
proof fn lemma_line_start_at_break(s: Seq<char>, c: int)
    requires
        0 <= c <= s.len(),
    ensures
        line_start(s, c) == 0 || s[line_start(s, c) - 1] == '\n',
    decreases c,
{
    if c > 0 && s[c - 1] != '\n' {
        lemma_line_start_at_break(s, c - 1);
    }
}

/// Where a line starts depends on the text before the position only, and
/// moving across characters that are no line break keeps it.
proof fn lemma_line_start_same(s: Seq<char>, t: Seq<char>, a: int, b: int)
    requires
        0 <= a <= b,
        a <= s.len(),
        b <= t.len(),
        forall|j: int| 0 <= j < a ==> s[j] == t[j],
        forall|j: int| a <= j < b ==> t[j] != '\n',
        line_start(s, a) == a,
    ensures
        line_start(t, b) == a,
    decreases b,
{
    if b > a {
        lemma_line_start_same(s, t, a, b - 1);
    } else if a > 0 {
        lemma_line_start_at_break(s, a);
        assert(s[a - 1] == '\n');
    }
}

/// Shift+Tab undoes Tab: with spaces for tabs, a Tab typed at the start of a
/// line or among the spaces that begin it, followed by Shift+Tab, gives back
/// the text and the caret.
pub proof fn lemma_tab_then_unindent(s: Seq<char>, c: int, tab_size: nat)
    requires
        0 <= c <= s.len(),
        c <= line_start(s, c) + spaces_from(s, line_start(s, c)),
    ensures
        ({
            let once = tab_edit(s, c, c, false, true, tab_size).unwrap();
            tab_edit(once.0, once.1, once.1, true, true, tab_size) == Some((s, c))
        }),
{
    let ls = line_start(s, c);
    lemma_line_start(s, c);
    lemma_spaces_from_run(s, ls);
    let t = tab_text(true, tab_size);
    let s1 = s.take(c) + t + s.skip(c);
    let c1 = c + tab_size;
    assert(tab_edit(s, c, c, false, true, tab_size) == Some((s1, c1)));
    assert forall|j: int| ls <= j < c implies s[j] == ' ' by {}
    assert forall|j: int| 0 <= j < ls implies s[j] == s1[j] by {}
    assert forall|j: int| ls <= j < c1 implies s1[j] == ' ' by {
        if j < c {
            assert(s1[j] == s[j]);
        } else {
            assert(s1[j] == t[j - c]);
        }
    }
    lemma_line_start_at_break(s, c);
    assert(line_start(s, ls) == ls) by {
        if ls > 0 {
            assert(s[ls - 1] == '\n');
        }
    }
    lemma_line_start_same(s, s1, ls, c1);
    assert(clamp(c1, s1.len() as int) == c1);
    lemma_spaces_from_at_least(s1, ls, c1);
    assert(unindent_width(s1, ls, true, tab_size) == Some(tab_size));
    let back = s1.take(ls) + s1.skip(ls + tab_size);
    assert forall|j: int| 0 <= j < s.len() implies #[trigger] back[j] == s[j] by {
        if j < ls {
        } else if j + tab_size < c {
            assert(back[j] == s1[j + tab_size]);
            assert(s1[j + tab_size] == s[j + tab_size]);
        } else if j < c {
            assert(back[j] == s1[j + tab_size]);
        } else {
            assert(back[j] == s1[j + tab_size]);
            assert(s1[j + tab_size] == s[j]);
        }
    }
    assert(back =~= s);
}

/// Appends `v[from..to]` to `out`.
fn push_chars_range(out: &mut String, v: &Vec<char>, from: usize, to: usize)
    requires
        from <= to <= v@.len(),
    ensures
        final(out)@ == old(out)@ + v@.subrange(from as int, to as int),
{
    let mut i: usize = from;
    while i < to
        invariant
            from <= i <= to <= v@.len(),
            out@ == old(out)@ + v@.subrange(from as int, i as int),
        decreases to - i,
    {
        push_char(out, v[i]);
        assert(out@ =~= old(out)@ + v@.subrange(from as int, i + 1));
        i = i + 1;
    }
}

/// The start of the line that holds position `c`.
fn line_start_exec(v: &Vec<char>, c: usize) -> (res: usize)
    requires
        c <= v@.len(),
    ensures
        res == line_start(v@, c as int),
{
    let mut i: usize = c;
    while i > 0 && v[i - 1] != '\n'
        invariant
            i <= c <= v@.len(),
            line_start(v@, i as int) == line_start(v@, c as int),
        decreases i,
    {
        i = i - 1;
    }
    i
}

/// The number of spaces that follow one another from `from`.
fn spaces_from_exec(v: &Vec<char>, from: usize) -> (res: usize)
    requires
        from <= v@.len(),
    ensures
        res == spaces_from(v@, from as int),
        from + res <= v@.len(),
{
    let mut j: usize = from;
    while j < v.len() && v[j] == ' '
        invariant
            from <= j <= v@.len(),
            spaces_from(v@, from as int) == (j - from) + spaces_from(v@, j as int),
        decreases v@.len() - j,
    {
        j = j + 1;
    }
    j - from
}

/// Tab inserts one indentation at the caret when nothing is selected;
/// Shift+Tab removes one from the start of the caret's line. Returns the new
/// text and caret, or `None` when the text stays as it is.
pub fn handle_tab_key(text: &str, primary: usize, secondary: usize, unindent: bool, use_spaces_for_tabs: bool, tab_size: usize)
    -> (res: Option<(String, usize)>)
    requires
        primary + tab_text(use_spaces_for_tabs, tab_size as nat).len() <= usize::MAX,
    ensures
        match tab_edit(text@, primary as int, secondary as int, unindent, use_spaces_for_tabs, tab_size as nat) {
            Some(e) => res matches Some(r) && r.0@ == e.0 && r.1 == e.1,
            None => res is None,
        },
{
    if primary != secondary {
        return None;
    }
    let chars = chars_of(text);
    let n = chars.len();
    let c = if primary < n { primary } else { n };
    let ghost s = text@;
    if !unindent {
        let mut out = String::new();
        push_chars_range(&mut out, &chars, 0, c);
        let added: usize;
        if use_spaces_for_tabs {
            push_spaces(&mut out, tab_size);
            added = tab_size;
        } else {
            push_char(&mut out, '\t');
            added = 1;
        }
        push_chars_range(&mut out, &chars, c, n);
        assert(s.subrange(0, c as int) =~= s.take(c as int));
        assert(s.subrange(c as int, n as int) =~= s.skip(c as int));
        assert(out@ =~= s.take(c as int) + tab_text(use_spaces_for_tabs, tab_size as nat) + s.skip(c as int));
        return Some((out, primary + added));
    }
    let ls = line_start_exec(&chars, c);
    proof { lemma_line_start(s, c as int); }
    let lead = spaces_from_exec(&chars, ls);
    let k: usize;
    if use_spaces_for_tabs && lead >= tab_size {
        k = tab_size;
    } else if lead > 0 {
        k = lead;
    } else if ls < n && chars[ls] == '\t' {
        k = 1;
    } else {
        return None;
    }
    let mut out = String::new();
    push_chars_range(&mut out, &chars, 0, ls);
    push_chars_range(&mut out, &chars, ls + k, n);
    assert(s.subrange(0, ls as int) =~= s.take(ls as int));
    assert(s.subrange(ls + k, n as int) =~= s.skip(ls + k));
    let caret = if c >= ls + k { c - k } else { ls };
    Some((out, caret))
}

/// Enter replaces the selection with a line break followed by the white
/// space that begins the caret's line. Returns the new text and caret.
pub fn handle_enter_key(text: &str, primary: usize, secondary: usize) -> (res: (String, usize))
    requires
        sel_lo(primary as int, secondary as int) + 1 + text@.len() <= usize::MAX,
    ensures
        res.0@ == enter_edit(text@, primary as int, secondary as int).0,
        res.1 == enter_edit(text@, primary as int, secondary as int).1,
{
    let chars = chars_of(text);
    let n = chars.len();
    let ghost s = text@;
    let cp = if primary < n { primary } else { n };
    let ls = line_start_exec(&chars, cp);
    proof { lemma_line_start(s, cp as int); }
    let ghost cur = s.subrange(ls as int, cp as int);
    let mut j: usize = ls;
    while j < cp && is_whitespace(chars[j])
        invariant
            ls <= j <= cp <= n == s.len(),
            chars@ == s,
            cur == s.subrange(ls as int, cp as int),
            forall|m: int| 0 <= m < j - ls ==> is_space(#[trigger] cur[m]),
        decreases cp - j,
    {
        j = j + 1;
    }
    proof {
        lemma_leading_ws(cur, j - ls);
        assert(cur.take(j - ls) =~= s.subrange(ls as int, j as int));
    }
    let lo = if primary < secondary { primary } else { secondary };
    let hi = if primary < secondary { secondary } else { primary };
    let a = if lo < n { lo } else { n };
    let b = if hi < n { hi } else { n };
    let mut out = String::new();
    push_chars_range(&mut out, &chars, 0, a);
    push_char(&mut out, '\n');
    push_chars_range(&mut out, &chars, ls, j);
    push_chars_range(&mut out, &chars, b, n);
    assert(s.subrange(0, a as int) =~= s.take(a as int));
    assert(s.subrange(b as int, n as int) =~= s.skip(b as int));
    let ghost ins = seq!['\n'] + cur.take(leading_ws(cur) as int);
    assert(out@ =~= s.take(a as int) + ins + s.skip(b as int));
    (out, lo + 1 + (j - ls))
}

/// The selected text, for the clipboard; `None` when nothing is selected.
pub fn handle_copy_key(text: &str, primary: usize, secondary: usize) -> (res: Option<String>)
    ensures
        match selected_text(text@, primary as int, secondary as int) {
            Some(t) => res matches Some(r) && r@ == t,
            None => res is None,
        },
{
    let chars = chars_of(text);
    let n = chars.len();
    let lo = if primary < secondary { primary } else { secondary };
    let hi = if primary < secondary { secondary } else { primary };
    let a = if lo < n { lo } else { n };
    let b = if hi < n { hi } else { n };
    if a == b {
        return None;
    }
    Some(string_from_chars(&chars, a, b))
}

/// Cutting: the selected text, for the clipboard, the text without it and the
/// new caret; `None` when nothing is selected.
pub fn handle_cut_key(text: &str, primary: usize, secondary: usize) -> (res: Option<(String, String, usize)>)
    ensures
        match cut_edit(text@, primary as int, secondary as int) {
            Some(e) => res matches Some(r) && r.0@ == e.0 && r.1@ == e.1 && r.2 == e.2,
            None => res is None,
        },
{
    let chars = chars_of(text);
    let n = chars.len();
    let ghost s = text@;
    let lo = if primary < secondary { primary } else { secondary };
    let hi = if primary < secondary { secondary } else { primary };
    let a = if lo < n { lo } else { n };
    let b = if hi < n { hi } else { n };
    if a == b {
        return None;
    }
    let cut = string_from_chars(&chars, a, b);
    let mut rest = String::new();
    push_chars_range(&mut rest, &chars, 0, a);
    push_chars_range(&mut rest, &chars, b, n);
    assert(s.subrange(0, a as int) =~= s.take(a as int));
    assert(s.subrange(b as int, n as int) =~= s.skip(b as int));
    assert(rest@ =~= s.take(a as int) + s.skip(b as int));
    Some((cut, rest, lo))
}

/// Pasting what was cut back at the caret gives the text back.
pub proof fn lemma_cut_then_paste(s: Seq<char>, primary: int, secondary: int)
    requires
        0 <= primary,
        0 <= secondary,
        cut_edit(s, primary, secondary) is Some,
    ensures
        ({
            let e = cut_edit(s, primary, secondary).unwrap();
            let c = clamp(e.2, e.1.len() as int);
            e.1.take(c) + e.0 + e.1.skip(c) == s
        }),
{
    let n = s.len() as int;
    let a = clamp(sel_lo(primary, secondary), n);
    let b = clamp(sel_hi(primary, secondary), n);
    let e = cut_edit(s, primary, secondary).unwrap();
    assert(clamp(e.2, e.1.len() as int) == a);
    assert(e.1.take(a) =~= s.take(a));
    assert(e.1.skip(a) =~= s.skip(b));
    assert(s.take(a) + s.subrange(a, b) + s.skip(b) =~= s);
}

/// Copying gives what cutting takes out.
pub proof fn lemma_copy_is_cut(s: Seq<char>, primary: int, secondary: int)
    ensures
        (selected_text(s, primary, secondary) is Some) == (cut_edit(s, primary, secondary) is Some),
        selected_text(s, primary, secondary) is Some ==> selected_text(s, primary, secondary).unwrap()
            == cut_edit(s, primary, secondary).unwrap().0,
{
}

/// A line that does not yet begin, after its white space, with `prefix`
/// begins with it once commented.
proof fn lemma_commented_line_starts_with_prefix(line: Seq<char>, prefix: Seq<char>)
    requires
        prefix.len() > 0,
        !is_space(prefix[0]),
    ensures
        starts_with(trim_start(toggled_line(line, prefix, false)), prefix),
{
    let w = leading_ws(line);
    lemma_leading_ws_bound(line);
    let t = line.skip(w as int);
    if !starts_with(t, prefix) {
        let n = byte_len(line.take(w as int));
        let ps = prefix.push(' ');
        let c = spaces(n) + ps + t;
        assert(toggled_line(line, prefix, false) == c);
        assert forall|j: int| 0 <= j < n implies is_space(#[trigger] c[j]) by {
            assert(c[j] == ' ');
        }
        assert(c[n as int] == prefix[0]);
        lemma_leading_ws(c, n as int);
        let t2 = c.skip(n as int);
        assert(t2 =~= ps + t);
        assert(t2.take(prefix.len() as int) =~= prefix);
    }
}

/// A comment toggle removes comments only when every selected line exists
/// and is commented. Otherwise every selected line ends up beginning, after
/// its white space, with the prefix, a line that already did is left as it
/// was, and lines not selected do not change. (The prefix must not begin
/// with white space.)
pub proof fn lemma_toggle_comments_when_one_is_not(lines: Seq<Seq<char>>, selected: Seq<int>, prefix: Seq<char>)
    requires
        prefix.len() > 0,
        !is_space(prefix[0]),
        exists|k: int| 0 <= k < selected.len() && !(0 <= #[trigger] selected[k] < lines.len()
            && starts_with(trim_start(lines[selected[k]]), prefix)),
    ensures
        toggled_lines(lines, selected, prefix).len() == lines.len(),
        forall|i: int| 0 <= i < lines.len() && selected.contains(i)
            ==> starts_with(trim_start(#[trigger] toggled_lines(lines, selected, prefix)[i]), prefix),
        forall|i: int| 0 <= i < lines.len() && starts_with(trim_start(lines[i]), prefix)
            ==> #[trigger] toggled_lines(lines, selected, prefix)[i] == lines[i],
        forall|i: int| 0 <= i < lines.len() && !selected.contains(i)
            ==> #[trigger] toggled_lines(lines, selected, prefix)[i] == lines[i],
{
    let k = choose|k: int| 0 <= k < selected.len() && !(0 <= #[trigger] selected[k] < lines.len()
        && starts_with(trim_start(lines[selected[k]]), prefix));
    assert(!all_commented(lines, selected, prefix));
    let r = toggled_lines(lines, selected, prefix);
    assert forall|i: int| 0 <= i < lines.len() && selected.contains(i)
        implies starts_with(trim_start(#[trigger] r[i]), prefix) by {
        lemma_commented_line_starts_with_prefix(lines[i], prefix);
    }
}

/// True when `after` is `line` with its comment prefix taken off: its
/// indentation written as spaces, then the text that followed the prefix
/// (and the one space after the prefix, when there was one).
pub open spec fn prefix_removed(line: Seq<char>, after: Seq<char>, prefix: Seq<char>) -> bool {
    exists|m: nat, u: Seq<char>| #![trigger spaces(m).add(u)] {
        &&& after == spaces(m).add(u)
        &&& starts_with(trim_start(line), prefix.push(' ')) ==> trim_start(line) == prefix.push(' ') + u
        &&& !starts_with(trim_start(line), prefix.push(' ')) ==> trim_start(line) == prefix + u
    }
}

/// Uncommenting a commented line takes the prefix off it.
proof fn lemma_uncommented_line(line: Seq<char>, prefix: Seq<char>)
    requires
        starts_with(trim_start(line), prefix),
    ensures
        prefix_removed(line, toggled_line(line, prefix, true), prefix),
{
    let w = leading_ws(line);
    let t = line.skip(w as int);
    let m = byte_len(line.take(w as int));
    let ps = prefix.push(' ');
    let r = toggled_line(line, prefix, true);
    if starts_with(t, ps) {
        let u = t.skip(ps.len() as int);
        assert(t =~= ps + u) by { assert(t.take(ps.len() as int) == ps); }
        assert(r == spaces(m).add(u));
    } else {
        let u = t.skip(prefix.len() as int);
        assert(t =~= prefix + u) by { assert(t.take(prefix.len() as int) == prefix); }
        assert(r == spaces(m).add(u));
    }
}

/// When every selected line exists and is commented, the toggle takes the
/// prefix (with one space after it, when there is one) off each selected
/// line and keeps the rest of its text; only the indentation before it is
/// rewritten as spaces. Lines not selected do not change.
pub proof fn lemma_toggle_uncomments_when_all_are(lines: Seq<Seq<char>>, selected: Seq<int>, prefix: Seq<char>)
    requires
        forall|k: int| 0 <= k < selected.len() ==> 0 <= #[trigger] selected[k] < lines.len()
            && starts_with(trim_start(lines[selected[k]]), prefix),
    ensures
        toggled_lines(lines, selected, prefix).len() == lines.len(),
        forall|i: int| 0 <= i < lines.len() && selected.contains(i)
            ==> prefix_removed(lines[i], #[trigger] toggled_lines(lines, selected, prefix)[i], prefix),
        forall|i: int| 0 <= i < lines.len() && !selected.contains(i)
            ==> #[trigger] toggled_lines(lines, selected, prefix)[i] == lines[i],
{
    assert(all_commented(lines, selected, prefix));
    let r = toggled_lines(lines, selected, prefix);
    assert forall|i: int| 0 <= i < lines.len() && selected.contains(i)
        implies prefix_removed(lines[i], #[trigger] r[i], prefix) by {
        let k = choose|k: int| 0 <= k < selected.len() && selected[k] == i;
        assert(starts_with(trim_start(lines[selected[k]]), prefix));
        lemma_uncommented_line(lines[i], prefix);
    }
}

/// Enter replaces the whole selection: the new text is the text before the
/// selection, a line break, white space that holds no line break, and the
/// text after the selection, whichever end holds the caret; the caret comes
/// to rest after the inserted white space.
pub proof fn lemma_enter_replaces_selection(s: Seq<char>, primary: int, secondary: int)
    requires
        0 <= primary <= s.len(),
        0 <= secondary <= s.len(),
    ensures
        ({
            let lo = if primary < secondary { primary } else { secondary };
            let hi = if primary < secondary { secondary } else { primary };
            let r = enter_edit(s, primary, secondary);
            exists|indent: Seq<char>| {
                &&& r.0 == s.take(lo) + seq!['\n'] + indent + #[trigger] s.skip(hi)
                &&& r.1 == lo + 1 + indent.len()
                &&& forall|j: int| 0 <= j < indent.len() ==> is_space(#[trigger] indent[j]) && indent[j] != '\n'
            }
        }),
{
    let n = s.len() as int;
    let cp = clamp(primary, n);
    lemma_line_start(s, cp);
    let cur = s.subrange(line_start(s, cp), cp);
    let indent = cur.take(leading_ws(cur) as int);
    lemma_leading_ws_bound(cur);
    let lo = if primary < secondary { primary } else { secondary };
    let hi = if primary < secondary { secondary } else { primary };
    assert forall|j: int| 0 <= j < indent.len() implies is_space(#[trigger] indent[j]) && indent[j] != '\n' by {
        assert(indent[j] == cur[j]);
        assert(cur[j] == s[line_start(s, cp) + j]);
    }
    let r = enter_edit(s, primary, secondary);
    assert(r.0 == s.take(lo) + seq!['\n'] + indent + s.skip(hi)) by {
        assert(s.take(lo) + (seq!['\n'] + indent) + s.skip(hi) =~= s.take(lo) + seq!['\n'] + indent + s.skip(hi));
    }
}

/// Shift+Tab with no selection on a line that begins with a tab (no space
/// before it) removes that tab, whether Tab writes spaces or tabs, and moves
/// the caret back by one, not before the line's start. (With spaces for
/// tabs and a tab size of 0 there is nothing to remove.)
pub proof fn lemma_unindent_removes_leading_tab(s: Seq<char>, c: int, ls: int, use_spaces: bool, tab_size: nat)
    requires
        0 <= ls <= c <= s.len(),
        ls == 0 || s[ls - 1] == '\n',
        forall|j: int| ls <= j < c ==> s[j] != '\n',
        ls < s.len(),
        s[ls] == '\t',
        !use_spaces || tab_size > 0,
    ensures
        tab_edit(s, c, c, true, use_spaces, tab_size)
            == Some((s.take(ls) + s.skip(ls + 1), if c - 1 > ls { c - 1 } else { ls })),
{
    assert(line_start(s, ls) == ls);
    lemma_line_start_same(s, s, ls, c);
    assert(spaces_from(s, ls) == 0);
}

} // verus!
