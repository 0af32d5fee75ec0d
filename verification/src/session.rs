//! Decisions of an editing session: when to auto-save, what the window
//! title shows, and what Escape closes.

use vstd::prelude::*;
use crate::strings::{chars_of, string_from_chars};
use vstd::string::StringExecFns;
use crate::text::{count_newlines, lines_count, lemma_count_newlines_bound};

verus! {

/// Which of the closable overlays are open.
#[derive(Debug, Clone, Copy, PartialEq, Eq, Structural)]
pub struct Overlays {
    pub about: bool,
    pub goto_line: bool,
    pub search: bool,
}

/// What Escape closes: the "about" panel if it is open, else the go-to-line
/// dialog, else the search panel; one at a time.
pub fn escape_overlays(open: Overlays) -> (res: Overlays)
    ensures
        res.about == false,
        res.goto_line == (open.goto_line && open.about),
        res.search == (open.search && (open.about || open.goto_line)),
{
    if open.about {
        Overlays { about: false, ..open }
    } else if open.goto_line {
        Overlays { goto_line: false, ..open }
    } else {
        Overlays { search: false, ..open }
    }
}

/// True when an auto-save is due. `immediate` asks for one now, whatever the
/// timing and the setting; otherwise the setting must be on, the text must
/// have rested `debounce_secs` since its last change, and that change must
/// not be saved by an auto-save already. Only a modified document that has
/// a file and a keyfile is auto-saved.
pub open spec fn autosave_is_due(
    auto_save_enabled: bool,
    immediate: bool,
    is_modified: bool,
    has_file: bool,
    has_keyfile: bool,
    secs_since_change: u64,
    debounce_secs: u64,
    autosaved_since_change: bool,
) -> bool {
    &&& auto_save_enabled || immediate
    &&& is_modified
    &&& has_file && has_keyfile
    &&& immediate || (secs_since_change >= debounce_secs && !autosaved_since_change)
}

/// Whether to auto-save now.
pub fn autosave_due(
    auto_save_enabled: bool,
    immediate: bool,
    is_modified: bool,
    has_file: bool,
    has_keyfile: bool,
    secs_since_change: u64,
    debounce_secs: u64,
    autosaved_since_change: bool,
) -> (res: bool)
    ensures
        res == autosave_is_due(auto_save_enabled, immediate, is_modified, has_file, has_keyfile,
            secs_since_change, debounce_secs, autosaved_since_change),
{
    if (!auto_save_enabled && !immediate) || !is_modified {
        return false;
    }
    if !has_file || !has_keyfile {
        return false;
    }
    if !immediate {
        if secs_since_change < debounce_secs {
            return false;
        }
        if autosaved_since_change {
            return false;
        }
    }
    true
}

/// What the window title shows; the words come from the translation.
pub enum WindowTitle {
    /// The application's name alone.
    App { modified: bool },
    /// The open file's name.
    File { name: String, modified: bool },
    /// A document never saved.
    Untitled { modified: bool },
}

/// `name` without a final ".sen".
pub open spec fn display_name(name: Seq<char>) -> Seq<char> {
    if name.len() >= 4 && name.skip(name.len() - 4) == ".sen"@ {
        name.take(name.len() - 4)
    } else {
        name
    }
}

/// The window title for a document whose file is called `file_name`, if it
/// has one; `hide_filename` keeps the name out of the title.
pub fn window_title(hide_filename: bool, is_modified: bool, file_name: Option<&str>) -> (res: WindowTitle)
    ensures
        hide_filename ==> res == (WindowTitle::App { modified: is_modified }),
        (!hide_filename && file_name is None) ==> res == (WindowTitle::Untitled { modified: is_modified }),
        (!hide_filename && file_name is Some) ==> (res matches WindowTitle::File { name, modified }
            && name@ == display_name(file_name->0@) && modified == is_modified),
{
    if hide_filename {
        return WindowTitle::App { modified: is_modified };
    }
    match file_name {
        Some(f) => {
            let cs = chars_of(f);
            let n = cs.len();
            let ext = chars_of(".sen");
            proof { reveal_strlit(".sen"); }
            let mut strip = n >= 4;
            let mut k: usize = 0;
            while strip && k < 4
                invariant
                    ext@ == ".sen"@,
                    ext@.len() == 4,
                    cs@ == f@,
                    n == cs@.len(),
                    k <= 4,
                    strip ==> n >= 4 && forall|m: int| 0 <= m < k ==> cs@[n - 4 + m] == ext@[m],
                    !strip ==> !(n >= 4 && f@.skip(n - 4) == ".sen"@),
                decreases 4 - k,
            {
                if cs[n - 4 + k] != ext[k] {
                    assert(f@.skip(n - 4)[k as int] != ".sen"@[k as int]);
                    strip = false;
                    k = 4;
                } else {
                    k = k + 1;
                }
            }
            if strip {
                assert(f@.skip(n - 4) =~= ".sen"@);
                WindowTitle::File { name: string_from_chars(&cs, 0, n - 4), modified: is_modified }
            } else {
                assert(cs@.subrange(0, n as int) =~= f@);
                WindowTitle::File { name: string_from_chars(&cs, 0, n), modified: is_modified }
            }
        },
        None => WindowTitle::Untitled { modified: is_modified },
    }
}

/// The largest keyfile accepted, in bytes.
pub const MAX_KEYFILE_SIZE: u64 = 104857600;

/// Whether a keyfile of a given size can be used.
#[derive(Debug, Clone, Copy, PartialEq, Eq, Structural)]
pub enum KeyfileSize {
    Empty,
    TooLarge,
    Usable,
}

/// Whether a keyfile of `size` bytes can be used: not empty, and at most
/// 100 MiB.
pub fn keyfile_size_check(size: u64) -> (res: KeyfileSize)
    ensures
        size == 0 ==> res == KeyfileSize::Empty,
        size > MAX_KEYFILE_SIZE ==> res == KeyfileSize::TooLarge,
        0 < size <= MAX_KEYFILE_SIZE ==> res == KeyfileSize::Usable,
{
    if size == 0 {
        KeyfileSize::Empty
    } else if size > MAX_KEYFILE_SIZE {
        KeyfileSize::TooLarge
    } else {
        KeyfileSize::Usable
    }
}

/// Where the last `c` of `s` is, or -1.
pub open spec fn last_index_of(s: Seq<char>, c: char) -> int
    decreases s.len(),
{
    if s.len() == 0 {
        -1
    } else if s.last() == c {
        s.len() - 1
    } else {
        last_index_of(s.drop_last(), c)
    }
}

/// A file name without its extension (`Path::file_stem`): what comes before
/// its last `.`, unless that dot begins the name.
pub open spec fn file_stem(name: Seq<char>) -> Seq<char> {
    let i = last_index_of(name, '.');
    if i > 0 { name.take(i) } else { name }
}

/// The name offered when the document's text is exported: the stem of the
/// open file's name with ".txt", or "document.txt" when there is no file.
pub fn export_file_name(file_name: Option<&str>) -> (res: String)
    ensures
        match file_name {
            Some(n) => res@ == file_stem(n@) + ".txt"@,
            None => res@ == "document.txt"@,
        },
{
    match file_name {
        Some(n) => {
            let cs = chars_of(n);
            let mut i: usize = cs.len();
            assert(n@.take(i as int) =~= n@);
            while i > 0 && cs[i - 1] != '.'
                invariant
                    cs@ == n@,
                    i <= cs@.len(),
                    last_index_of(n@, '.') == last_index_of(n@.take(i as int), '.'),
                decreases i,
            {
                assert(n@.take(i as int).drop_last() =~= n@.take(i - 1));
                i = i - 1;
            }
            proof {
                if i == 0 {
                    assert(n@.take(0) =~= Seq::<char>::empty());
                } else {
                    assert(n@.take(i as int).last() == '.');
                }
                assert(n@.take(cs@.len() as int) =~= n@);
            }
            let end = if i > 1 { i - 1 } else { cs.len() };
            let mut res = string_from_chars(&cs, 0, end);
            res.append(".txt");
            proof {
                if i <= 1 {
                    assert(cs@.subrange(0, cs@.len() as int) =~= n@);
                } else {
                    assert(cs@.subrange(0, end as int) =~= n@.take(i - 1));
                }
            }
            res
        },
        None => "document.txt".to_owned(),
    }
}

/// True when every character of `s` is an ASCII digit.
pub open spec fn all_digits(s: Seq<char>) -> bool {
    forall|i: int| 0 <= i < s.len() ==> '0' <= #[trigger] s[i] <= '9'
}

/// The number the decimal digits `s` write.
pub open spec fn digits_value(s: Seq<char>) -> int
    decreases s.len(),
{
    if s.len() == 0 {
        0
    } else {
        digits_value(s.drop_last()) * 10 + (s.last() as int - '0' as int)
    }
}

/// The `usize` that `str::parse` reads from `s`: an optional `+`, then at
/// least one digit, and no more than `usize::MAX`; `None` otherwise.
pub open spec fn parsed_usize(s: Seq<char>) -> Option<int> {
    let d = if s.len() > 0 && s[0] == '+' { s.drop_first() } else { s };
    if d.len() > 0 && all_digits(d) && digits_value(d) <= usize::MAX {
        Some(digits_value(d))
    } else {
        None
    }
}

/// A longer run of digits is worth at least as much as its beginning.
proof fn lemma_digits_grow(s: Seq<char>, k: int)
    requires
        0 <= k <= s.len(),
        all_digits(s),
    ensures
        digits_value(s.take(k)) <= digits_value(s),
        digits_value(s) >= 0,
    decreases s.len(),
{
    if s.len() > 0 {
        let t = s.drop_last();
        assert(all_digits(t)) by {
            assert forall|i: int| 0 <= i < t.len() implies '0' <= #[trigger] t[i] <= '9' by {
                assert(t[i] == s[i]);
            }
        }
        if k == s.len() {
            assert(s.take(k) =~= s);
            lemma_digits_grow(t, 0);
        } else {
            lemma_digits_grow(t, k);
            assert(t.take(k) =~= s.take(k));
        }
        assert('0' <= s[s.len() - 1] <= '9');
    } else {
        assert(s.take(k) =~= s);
    }
}

/// Where "Go to line" leads.
#[derive(Debug, Clone, Copy, PartialEq, Eq, Structural)]
pub enum GotoLine {
    /// The text typed is no line number.
    Invalid,
    /// The number is not a line of the text, which has this many lines.
    OutOfRange(usize),
    /// The line to highlight, counted from 1.
    Line(usize),
}

/// Where "Go to line" with `input` typed leads in `text`: a line from 1 to
/// the number of lines (at least 1).
pub fn goto_line(input: &str, text: &str) -> (res: GotoLine)
    ensures
        ({
            let c = lines_count(text@);
            let max = if c < 1 { 1 } else { c as int };
            match parsed_usize(input@) {
                None => res == GotoLine::Invalid,
                Some(n) => if 1 <= n <= max {
                    res == GotoLine::Line(n as usize)
                } else {
                    res == GotoLine::OutOfRange(max as usize)
                },
            }
        }),
{
    let cs = chars_of(input);
    let start: usize = if cs.len() > 0 && cs[0] == '+' { 1 } else { 0 };
    let ghost d = if input@.len() > 0 && input@[0] == '+' { input@.drop_first() } else { input@ };
    assert(d =~= input@.skip(start as int));
    if start >= cs.len() {
        return GotoLine::Invalid;
    }
    let mut value: usize = 0;
    let mut i: usize = start;
    assert(d.take(0) =~= Seq::<char>::empty());
    while i < cs.len()
        invariant
            cs@ == input@,
            start <= i <= cs@.len(),
            d == input@.skip(start as int),
            d == (if input@.len() > 0 && input@[0] == '+' { input@.drop_first() } else { input@ }),
            all_digits(d.take(i - start)),
            value == digits_value(d.take(i - start)),
        decreases cs@.len() - i,
    {
        let c = cs[i];
        assert(d[i - start] == c);
        if c < '0' || c > '9' {
            assert(!all_digits(d));
            return GotoLine::Invalid;
        }
        let digit = (c as u32 - '0' as u32) as usize;
        assert(d.take(i + 1 - start).drop_last() =~= d.take(i - start));
        if value > (usize::MAX - digit) / 10 {
            proof {
                assert(all_digits(d.take(i + 1 - start))) by {
                    assert forall|j: int| 0 <= j < i + 1 - start implies '0' <= #[trigger] d.take(i + 1 - start)[j] <= '9' by {
                        if j < i - start {
                            assert(d.take(i + 1 - start)[j] == d.take(i - start)[j]);
                        }
                    }
                }
                if all_digits(d) {
                    lemma_digits_grow(d, i + 1 - start);
                }
                assert(digits_value(d.take(i + 1 - start)) > usize::MAX);
            }
            return GotoLine::Invalid;
        }
        value = value * 10 + digit;
        proof {
            assert forall|j: int| 0 <= j < i + 1 - start implies '0' <= #[trigger] d.take(i + 1 - start)[j] <= '9' by {
                if j < i - start {
                    assert(d.take(i + 1 - start)[j] == d.take(i - start)[j]);
                }
            }
        }
        i = i + 1;
    }
    assert(d.take(i - start) =~= d);
    let tv = chars_of(text);
    let mut newlines: usize = 0;
    let mut j: usize = 0;
    assert(text@.take(0) =~= Seq::<char>::empty());
    while j < tv.len()
        invariant
            tv@ == text@,
            j <= tv@.len(),
            newlines == count_newlines(text@.take(j as int)),
            newlines <= j,
        decreases tv@.len() - j,
    {
        assert(text@.take(j + 1).drop_last() =~= text@.take(j as int));
        if tv[j] == '\n' {
            newlines = newlines + 1;
        }
        j = j + 1;
    }
    assert(text@.take(j as int) =~= text@);
    proof {
        if j > 0 {
            lemma_count_newlines_bound(text@.drop_last());
        }
    }
    let lines: usize = if j == 0 {
        0
    } else if tv[j - 1] == '\n' {
        newlines
    } else {
        newlines + 1
    };
    let max: usize = if lines < 1 { 1 } else { lines };
    if value >= 1 && value <= max {
        GotoLine::Line(value)
    } else {
        GotoLine::OutOfRange(max)
    }
}

} // verus!
