//! Find and replace in the document: the matches of a query, stepping
//! through them, and replacing one or all of them.

use vstd::prelude::*;
use crate::text::{as_ints, count_newlines, lines_count, lemma_count_newlines_bound};
use vstd::string::StringSliceAdditionalSpecFns;
use vstd::arithmetic::div_mod::{lemma_small_mod, lemma_mod_self_0};
use crate::strings::{chars_of, push_char, occurs_at, occurs_at_exec, str_eq, lowercased, to_lowercase};
use crate::text::{byte_len, char_width, lemma_byte_len_encode, lemma_byte_len_prefix, lemma_byte_len_concat,
    char_to_byte_idx, byte_to_char_idx};

verus! {

/// The byte offsets at which `pat` is found in `s` from character `i` on,
/// leftmost first and without overlap. An empty `pat` is found at every
/// character boundary.
pub open spec fn offsets_from(s: Seq<char>, pat: Seq<char>, i: nat) -> Seq<int>
    decreases s.len() + 1 - i,
{
    if i > s.len() {
        Seq::empty()
    } else if pat.len() == 0 {
        seq![byte_len(s.take(i as int)) as int] + offsets_from(s, pat, i + 1)
    } else if i + pat.len() > s.len() {
        Seq::empty()
    } else if occurs_at(s, pat, i as int) {
        seq![byte_len(s.take(i as int)) as int] + offsets_from(s, pat, i + pat.len())
    } else {
        offsets_from(s, pat, i + 1)
    }
}

/// The byte offsets of the matches of `query` in `text`. Without case
/// sensitivity both are lower-cased first and the offsets are those of the
/// lower-cased text. An empty query has no match.
pub open spec fn search_offsets(text: Seq<char>, query: Seq<char>, case_sensitive: bool) -> Seq<int> {
    if query.len() == 0 {
        Seq::empty()
    } else if case_sensitive {
        offsets_from(text, query, 0)
    } else {
        offsets_from(lowercased(text), lowercased(query), 0)
    }
}

/// `s` from character `i` on, with each occurrence of `pat` (leftmost first,
/// without overlap) replaced by `r`.
pub open spec fn replaced_from(s: Seq<char>, pat: Seq<char>, r: Seq<char>, i: nat) -> Seq<char>
    decreases s.len() + 1 - i,
{
    if i > s.len() {
        Seq::empty()
    } else if pat.len() == 0 || i + pat.len() > s.len() {
        s.skip(i as int)
    } else if occurs_at(s, pat, i as int) {
        r + replaced_from(s, pat, r, i + pat.len())
    } else {
        seq![s[i as int]] + replaced_from(s, pat, r, i + 1)
    }
}

/// True when byte offset `b` falls between two characters of `s`.
pub open spec fn is_boundary(s: Seq<char>, b: int) -> bool {
    exists|k: int| 0 <= k <= s.len() && #[trigger] byte_len(s.take(k)) == b
}

/// The character position at byte offset `b`.
pub open spec fn char_index_of(s: Seq<char>, b: int) -> int {
    choose|k: int| 0 <= k <= s.len() && #[trigger] byte_len(s.take(k)) == b
}

/// The line that a match at byte offset `start` is shown on, counted from 1.
pub open spec fn match_line(s: Seq<char>, start: int) -> int {
    let c = lines_count(s.take(char_index_of(s, start)));
    if c < 1 { 1 } else { c as int }
}

/// The match after `cur` among `n`, cycling to the first; nothing changes
/// when there is no match.
pub open spec fn next_index(cur: Option<usize>, n: int) -> Option<usize> {
    if n == 0 {
        cur
    } else {
        match cur {
            Some(i) => Some(((i + 1) % n) as usize),
            None => Some(0usize),
        }
    }
}

/// The match before `cur` among `n`, cycling to the last; nothing changes
/// when there is no match.
pub open spec fn prev_index(cur: Option<usize>, n: int) -> Option<usize> {
    if n == 0 {
        cur
    } else {
        match cur {
            Some(i) => if i == 0 { Some((n - 1) as usize) } else { Some((i - 1) as usize) },
            None => Some((n - 1) as usize),
        }
    }
}

/// The byte offsets of the matches of `pat` in `s`.
pub fn find_matches(s: &str, pat: &str) -> (res: Vec<usize>)
    ensures
        as_ints(res@) == offsets_from(s@, pat@, 0),
{
    let sv = chars_of(s);
    let pv = chars_of(pat);
    let n = sv.len();
    let pn = pv.len();
    let total = s.as_bytes().len();
    let pat_bytes = pat.as_bytes().len();
    proof {
        lemma_byte_len_encode(s@);
        lemma_byte_len_encode(pat@);
        assert(s@.take(n as int) =~= s@);
        assert(s@.take(0) =~= Seq::<char>::empty());
    }
    let ghost all = offsets_from(s@, pat@, 0);
    let mut res: Vec<usize> = Vec::new();
    let mut i: usize = 0;
    let mut off: usize = 0;
    if pn == 0 {
        loop
            invariant
                sv@ == s@,
                pv@ == pat@,
                n == s@.len(),
                pn == 0,
                pn == pat@.len(),
                all == offsets_from(s@, pat@, 0),
                total == byte_len(s@),
                i <= n,
                off == byte_len(s@.take(i as int)),
                as_ints(res@) + offsets_from(s@, pat@, i as nat) == all,
            decreases n - i,
        {
            let ghost before = res@;
            assert(offsets_from(s@, pat@, i as nat) == seq![off as int] + offsets_from(s@, pat@, (i + 1) as nat));
            res.push(off);
            assert(as_ints(res@) =~= as_ints(before).push(off as int));
            assert(as_ints(res@) + offsets_from(s@, pat@, (i + 1) as nat) =~= as_ints(before)
                + offsets_from(s@, pat@, i as nat));
            if i == n {
                assert(offsets_from(s@, pat@, (i + 1) as nat) =~= Seq::<int>::empty());
                assert(as_ints(res@) =~= all);
                return res;
            }
            proof {
                lemma_byte_len_prefix(s@, i + 1, n as int);
                assert(s@.take(n as int) =~= s@);
                assert(s@.take(i + 1).drop_last() =~= s@.take(i as int));
            }
            off = off + char_width(sv[i]);
            i = i + 1;
        }
    }
    if pn > n {
        assert(as_ints(res@) =~= Seq::<int>::empty());
        assert(all =~= Seq::<int>::empty());
        return res;
    }
    while i <= n - pn
        invariant
            sv@ == s@,
            pv@ == pat@,
            n == s@.len(),
            pn == pat@.len(),
            0 < pn <= n,
            all == offsets_from(s@, pat@, 0),
            total == byte_len(s@),
            pat_bytes == byte_len(pat@),
            i <= n,
            off == byte_len(s@.take(i as int)),
            as_ints(res@) + offsets_from(s@, pat@, i as nat) == all,
        decreases n - i,
    {
        let ghost before = res@;
        if occurs_at_exec(&sv, &pv, i) {
            res.push(off);
            proof {
                assert(s@.take(i + pn) =~= s@.take(i as int) + s@.subrange(i as int, i + pn));
                lemma_byte_len_concat(s@.take(i as int), pat@);
                lemma_byte_len_prefix(s@, i + pn, n as int);
                assert(s@.take(n as int) =~= s@);
                assert(as_ints(res@) =~= as_ints(before).push(off as int));
                assert(as_ints(res@) + offsets_from(s@, pat@, (i + pn) as nat) =~= as_ints(before)
                    + offsets_from(s@, pat@, i as nat));
            }
            off = off + pat_bytes;
            i = i + pn;
        } else {
            proof {
                lemma_byte_len_prefix(s@, i + 1, n as int);
                assert(s@.take(n as int) =~= s@);
                assert(s@.take(i + 1).drop_last() =~= s@.take(i as int));
            }
            off = off + char_width(sv[i]);
            i = i + 1;
        }
    }
    assert(as_ints(res@) =~= all);
    res
}

/// `s` with each occurrence of `pat` replaced by `r`, leftmost first and
/// without overlap, as `str::replace` does; an empty `pat` replaces nothing.
pub fn replace_matches(s: &str, pat: &str, r: &str) -> (res: String)
    ensures
        res@ == replaced_from(s@, pat@, r@, 0),
{
    let sv = chars_of(s);
    let pv = chars_of(pat);
    let rv = chars_of(r);
    let n = sv.len();
    let pn = pv.len();
    let ghost all = replaced_from(s@, pat@, r@, 0);
    let mut out = String::new();
    let mut i: usize = 0;
    while i < n
        invariant
            sv@ == s@,
            pv@ == pat@,
            rv@ == r@,
            n == s@.len(),
            pn == pat@.len(),
            i <= n,
            out@ + replaced_from(s@, pat@, r@, i as nat) == all,
        decreases n - i,
    {
        let ghost before = out@;
        if pn > 0 && pn <= n - i && occurs_at_exec(&sv, &pv, i) {
            let mut k: usize = 0;
            while k < rv.len()
                invariant
                    k <= rv@.len(),
                    out@ == before + rv@.take(k as int),
                decreases rv@.len() - k,
            {
                push_char(&mut out, rv[k]);
                assert(out@ =~= before + rv@.take(k + 1));
                k = k + 1;
            }
            assert(rv@.take(k as int) =~= r@);
            assert(out@ + replaced_from(s@, pat@, r@, (i + pn) as nat) =~= before + replaced_from(s@, pat@, r@, i as nat));
            i = i + pn;
        } else if pn == 0 || pn > n - i {
            let mut k: usize = i;
            while k < n
                invariant
                    i <= k <= n,
                    n == s@.len(),
                    sv@ == s@,
                    out@ == before + s@.subrange(i as int, k as int),
                decreases n - k,
            {
                push_char(&mut out, sv[k]);
                assert(out@ =~= before + s@.subrange(i as int, k + 1));
                k = k + 1;
            }
            assert(s@.subrange(i as int, n as int) =~= s@.skip(i as int));
            assert(replaced_from(s@, pat@, r@, n as nat) =~= Seq::<char>::empty());
            assert(out@ + replaced_from(s@, pat@, r@, n as nat) =~= all);
            i = n;
        } else {
            push_char(&mut out, sv[i]);
            assert(out@ + replaced_from(s@, pat@, r@, (i + 1) as nat) =~= before + replaced_from(s@, pat@, r@, i as nat));
            i = i + 1;
        }
    }
    assert(replaced_from(s@, pat@, r@, n as nat) =~= Seq::<char>::empty());
    assert(out@ =~= all);
    out
}

/// A longer prefix takes more bytes, so each byte offset names at most one
/// character position.
pub proof fn lemma_boundary_unique(s: Seq<char>, k1: int, k2: int)
    requires
        0 <= k1 <= s.len(),
        0 <= k2 <= s.len(),
        byte_len(s.take(k1)) == byte_len(s.take(k2)),
    ensures
        k1 == k2,
{
    if k1 < k2 {
        lemma_byte_len_prefix(s, k1, k2);
    } else if k2 < k1 {
        lemma_byte_len_prefix(s, k2, k1);
    }
}

/// The character position at byte offset `b`, which falls between two characters.
fn char_position(text: &str, b: usize) -> (res: usize)
    requires
        is_boundary(text@, b as int),
    ensures
        res == char_index_of(text@, b as int),
        0 <= res <= text@.len(),
        byte_len(text@.take(res as int)) == b,
{
    let k = byte_to_char_idx(text, b);
    proof {
        let w = choose|w: int| 0 <= w <= text@.len() && #[trigger] byte_len(text@.take(w)) == b;
        assert(byte_len(text@.take(k as int)) == b);
        let c = char_index_of(text@, b as int);
        lemma_boundary_unique(text@, k as int, c);
    }
    k
}

/// `v[from..to]` appended to `out`.
fn push_range(out: &mut String, v: &Vec<char>, from: usize, to: usize)
    requires
        from <= to <= v@.len(),
    ensures
        final(out)@ == old(out)@ + v@.subrange(from as int, to as int),
{
    let mut i: usize = from;
    while i < to
        invariant
            from <= i <= to <= v@.len(),
            out@ == old(out)@ + v@.subrange(from as int, i as int),
        decreases to - i,
    {
        push_char(out, v[i]);
        assert(out@ =~= old(out)@ + v@.subrange(from as int, i + 1));
        i = i + 1;
    }
}

/// The find-and-replace panel's state: the query, its replacement, whether
/// case matters, the byte offsets of the matches and the selected match.
pub struct SearchState {
    pub search_query: String,
    pub replace_query: String,
    pub search_case_sensitive: bool,
    pub search_matches: Vec<usize>,
    pub current_match_index: Option<usize>,
}

/// True when `after` holds the search of `text` with the query and options
/// of `before`: its matches, and the first of them selected.
pub open spec fn searched(after: SearchState, before: SearchState, text: Seq<char>) -> bool {
    &&& after.search_query == before.search_query
    &&& after.replace_query == before.replace_query
    &&& after.search_case_sensitive == before.search_case_sensitive
    &&& as_ints(after.search_matches@) == search_offsets(text, before.search_query@, before.search_case_sensitive)
    &&& after.current_match_index == if after.search_matches@.len() == 0 { None } else { Some(0usize) }
}

/// True when the selected match can be replaced without cutting a character
/// of `text` in two.
pub open spec fn replace_in_bounds(st: SearchState, text: Seq<char>) -> bool {
    match st.current_match_index {
        Some(idx) => idx < st.search_matches@.len() ==> {
            let start = st.search_matches@[idx as int] as int;
            let end = start + byte_len(st.search_query@);
            end <= usize::MAX && (end <= byte_len(text) ==> is_boundary(text, start) && is_boundary(text, end))
        },
        None => true,
    }
}

/// True when replacing the selected match does something: there is one and
/// it lies within the text.
pub open spec fn replace_applies(st: SearchState, text: Seq<char>) -> bool {
    match st.current_match_index {
        Some(idx) => idx < st.search_matches@.len()
            && st.search_matches@[idx as int] + byte_len(st.search_query@) <= byte_len(text),
        None => false,
    }
}

/// `text` with the selected match replaced.
pub open spec fn replaced_current(st: SearchState, text: Seq<char>) -> Seq<char> {
    let start = st.search_matches@[st.current_match_index->0 as int] as int;
    let end = start + byte_len(st.search_query@);
    text.take(char_index_of(text, start)) + st.replace_query@ + text.skip(char_index_of(text, end))
}

impl SearchState {
    /// An empty query with no match.
    pub fn new() -> (res: SearchState)
        ensures
            res.search_query@ == Seq::<char>::empty(),
            res.replace_query@ == Seq::<char>::empty(),
            !res.search_case_sensitive,
            res.search_matches@.len() == 0,
            res.current_match_index is None,
    {
        SearchState {
            search_query: String::new(),
            replace_query: String::new(),
            search_case_sensitive: false,
            search_matches: Vec::new(),
            current_match_index: None,
        }
    }

    /// Finds every match of the query in `text` and selects the first.
    pub fn perform_search(&mut self, text: &str)
        ensures
            searched(*final(self), *old(self), text@),
    {
        self.current_match_index = None;
        let qv = chars_of(self.search_query.as_str());
        if qv.len() == 0 {
            self.search_matches = Vec::new();
            assert(as_ints(self.search_matches@) =~= Seq::<int>::empty());
            return;
        }
        let found = if self.search_case_sensitive {
            find_matches(text, self.search_query.as_str())
        } else {
            let text_lower = to_lowercase(text);
            let query_lower = to_lowercase(self.search_query.as_str());
            find_matches(text_lower.as_str(), query_lower.as_str())
        };
        self.search_matches = found;
        if self.search_matches.len() > 0 {
            self.current_match_index = Some(0);
        }
    }

    /// Selects the match after the selected one, cycling to the first, and
    /// returns it; `None` when there is no match.
    pub fn find_next(&mut self) -> (res: Option<usize>)
        requires
            old(self).current_match_index matches Some(i) ==> i < usize::MAX,
        ensures
            final(self).current_match_index == next_index(old(self).current_match_index, old(self).search_matches@.len() as int),
            final(self).search_query == old(self).search_query,
            final(self).replace_query == old(self).replace_query,
            final(self).search_case_sensitive == old(self).search_case_sensitive,
            final(self).search_matches == old(self).search_matches,
            res == if old(self).search_matches@.len() == 0 { None } else { final(self).current_match_index },
    {
        let n = self.search_matches.len();
        if n == 0 {
            return None;
        }
        let next = match self.current_match_index {
            Some(i) => (i + 1) % n,
            None => 0,
        };
        self.current_match_index = Some(next);
        Some(next)
    }

    /// Selects the match before the selected one, cycling to the last, and
    /// returns it; `None` when there is no match.
    pub fn find_prev(&mut self) -> (res: Option<usize>)
        ensures
            final(self).current_match_index == prev_index(old(self).current_match_index, old(self).search_matches@.len() as int),
            final(self).search_query == old(self).search_query,
            final(self).replace_query == old(self).replace_query,
            final(self).search_case_sensitive == old(self).search_case_sensitive,
            final(self).search_matches == old(self).search_matches,
            res == if old(self).search_matches@.len() == 0 { None } else { final(self).current_match_index },
    {
        let n = self.search_matches.len();
        if n == 0 {
            return None;
        }
        let prev = match self.current_match_index {
            Some(i) => if i == 0 { n - 1 } else { i - 1 },
            None => n - 1,
        };
        self.current_match_index = Some(prev);
        Some(prev)
    }

    /// The byte range of match `match_idx` in `text` and the line it is on,
    /// counted from 1; `None` when there is no such match.
    pub fn select_match(&self, text: &str, match_idx: usize) -> (res: Option<(usize, usize, usize)>)
        requires
            match_idx < self.search_matches@.len() ==> is_boundary(text@, self.search_matches@[match_idx as int] as int)
                && self.search_matches@[match_idx as int] + byte_len(self.search_query@) <= usize::MAX,
        ensures
            match_idx >= self.search_matches@.len() ==> res is None,
            match_idx < self.search_matches@.len() ==> (res matches Some(r)
                && r.0 == self.search_matches@[match_idx as int]
                && r.1 == r.0 + byte_len(self.search_query@)
                && r.2 == match_line(text@, r.0 as int)),
    {
        if match_idx >= self.search_matches.len() {
            return None;
        }
        let start = self.search_matches[match_idx];
        let qlen = self.search_query.as_str().as_bytes().len();
        proof { lemma_byte_len_encode(self.search_query@); }
        let k = char_position(text, start);
        let chars = chars_of(text);
        let ghost p = text@.take(k as int);
        let mut count: usize = 0;
        let mut j: usize = 0;
        assert(p.take(0) =~= Seq::<char>::empty());
        while j < k
            invariant
                j <= k <= chars@.len(),
                chars@ == text@,
                p == text@.take(k as int),
                count == count_newlines(p.take(j as int)),
                count <= j,
            decreases k - j,
        {
            assert(p.take(j + 1).drop_last() =~= p.take(j as int));
            if chars[j] == '\n' {
                count = count + 1;
            }
            j = j + 1;
        }
        assert(p.take(k as int) =~= p);
        proof {
            if k > 0 {
                lemma_count_newlines_bound(p.drop_last());
            }
        }
        let lines = if k == 0 {
            0
        } else if chars[k - 1] == '\n' {
            count
        } else {
            count + 1
        };
        let line = if lines < 1 { 1 } else { lines };
        Some((start, start + qlen, line))
    }

    /// Replaces the selected match in `text` with the replacement and
    /// searches again. Returns whether the text changed hands: nothing
    /// happens when no match is selected or it lies past the end.
    pub fn replace_current(&mut self, text: &mut String) -> (modified: bool)
        requires
            replace_in_bounds(*old(self), old(text)@),
        ensures
            modified == replace_applies(*old(self), old(text)@),
            modified ==> final(text)@ == replaced_current(*old(self), old(text)@)
                && searched(*final(self), *old(self), final(text)@),
            !modified ==> final(text)@ == old(text)@ && *final(self) == *old(self),
    {
        let idx = match self.current_match_index {
            Some(i) => i,
            None => return false,
        };
        if idx >= self.search_matches.len() {
            return false;
        }
        let start = self.search_matches[idx];
        let qlen = self.search_query.as_str().as_bytes().len();
        let total = text.as_str().as_bytes().len();
        proof {
            lemma_byte_len_encode(self.search_query@);
            lemma_byte_len_encode(text@);
        }
        let end = start + qlen;
        if end > total {
            return false;
        }
        let a = char_position(text.as_str(), start);
        let b = char_position(text.as_str(), end);
        proof {
            if b < a {
                lemma_byte_len_prefix(text@, b as int, a as int);
            }
        }
        let chars = chars_of(text.as_str());
        let rv = chars_of(self.replace_query.as_str());
        let mut out = String::new();
        push_range(&mut out, &chars, 0, a);
        push_range(&mut out, &rv, 0, rv.len());
        push_range(&mut out, &chars, b, chars.len());
        proof {
            assert(chars@.subrange(0, a as int) =~= text@.take(a as int));
            assert(rv@.subrange(0, rv@.len() as int) =~= self.replace_query@);
            assert(chars@.subrange(b as int, chars@.len() as int) =~= text@.skip(b as int));
        }
        *text = out;
        self.perform_search(text.as_str());
        true
    }

    /// Replaces every occurrence of the query in `text` (case always
    /// matters here) and searches again when the text changed. Returns
    /// whether it changed.
    pub fn replace_all(&mut self, text: &mut String) -> (modified: bool)
        ensures
            modified == (old(self).search_query@.len() > 0
                && replaced_from(old(text)@, old(self).search_query@, old(self).replace_query@, 0) != old(text)@),
            modified ==> final(text)@ == replaced_from(old(text)@, old(self).search_query@, old(self).replace_query@, 0)
                && searched(*final(self), *old(self), final(text)@),
            !modified ==> final(text)@ == old(text)@ && *final(self) == *old(self),
    {
        let qv = chars_of(self.search_query.as_str());
        if qv.len() == 0 {
            return false;
        }
        let new_text = replace_matches(text.as_str(), self.search_query.as_str(), self.replace_query.as_str());
        if str_eq(new_text.as_str(), text.as_str()) {
            return false;
        }
        *text = new_text;
        self.perform_search(text.as_str());
        true
    }
}

/// The pieces a line of the editor is drawn in, from the match list on:
/// `(start, end, highlighted)`, offsets within the line, the line beginning
/// at byte `line_start` of the text and `line_len` bytes long; `pos` is
/// where the previous piece ended.
pub open spec fn segments_from(line_start: int, line_len: int, matches: Seq<usize>, qlen: int, pos: int)
    -> Seq<(int, int, bool)>
    decreases matches.len(),
{
    if matches.len() == 0 {
        if pos < line_len { seq![(pos, line_len, false)] } else { Seq::empty() }
    } else {
        let ms = matches[0] as int;
        let me = ms + qlen;
        let line_end = line_start + line_len;
        if me <= line_start || ms >= line_end {
            segments_from(line_start, line_len, matches.drop_first(), qlen, pos)
        } else {
            let ls = if ms > line_start { ms - line_start } else { 0 };
            let le = if me < line_end { me - line_start } else { line_len };
            let before = if ls > pos { seq![(pos, ls, false)] } else { Seq::empty() };
            let hl = if le > ls { seq![(ls, le, true)] } else { Seq::empty() };
            before + hl + segments_from(line_start, line_len, matches.drop_first(), qlen, le)
        }
    }
}

/// The pieces of a line: highlighted where it overlaps a match of the
/// search, when a search with matches is active and the line is not empty;
/// otherwise the whole line as one plain piece.
pub open spec fn line_pieces(line_start: int, line_len: int, matches: Seq<usize>, qlen: int, search_active: bool)
    -> Seq<(int, int, bool)>
{
    if search_active && line_len > 0 {
        segments_from(line_start, line_len, matches, qlen, 0)
    } else {
        seq![(0, line_len, false)]
    }
}

/// `v` read with integer offsets.
pub open spec fn piece_ints(v: Seq<(usize, usize, bool)>) -> Seq<(int, int, bool)> {
    v.map_values(|p: (usize, usize, bool)| (p.0 as int, p.1 as int, p.2))
}

/// The pieces the editor draws a line in, highlighting the search matches.
pub fn line_segments(line_start: usize, line_len: usize, search_matches: &[usize], query_len: usize, search_active: bool)
    -> (res: Vec<(usize, usize, bool)>)
    requires
        line_start + line_len <= usize::MAX,
        forall|i: int| 0 <= i < search_matches@.len() ==> search_matches@[i] + query_len <= usize::MAX,
    ensures
        piece_ints(res@) == line_pieces(line_start as int, line_len as int, search_matches@, query_len as int, search_active),
{
    let mut res: Vec<(usize, usize, bool)> = Vec::new();
    if !(search_active && line_len > 0) {
        res.push((0, line_len, false));
        assert(piece_ints(res@) =~= seq![(0int, line_len as int, false)]);
        return res;
    }
    let line_end = line_start + line_len;
    let ghost all = search_matches@;
    let mut pos: usize = 0;
    let mut i: usize = 0;
    assert(all.skip(0) =~= all);
    while i < search_matches.len()
        invariant
            all == search_matches@,
            i <= all.len(),
            line_end == line_start + line_len,
            line_start + line_len <= usize::MAX,
            pos <= line_len,
            forall|k: int| 0 <= k < all.len() ==> all[k] + query_len <= usize::MAX,
            piece_ints(res@) + segments_from(line_start as int, line_len as int, all.skip(i as int), query_len as int, pos as int)
                == segments_from(line_start as int, line_len as int, all, query_len as int, 0),
        decreases all.len() - i,
    {
        let ghost rest = all.skip(i as int);
        assert(rest.drop_first() =~= all.skip(i + 1));
        assert(rest[0] == all[i as int]);
        let ms = search_matches[i];
        let me = ms + query_len;
        if me <= line_start || ms >= line_end {
            i = i + 1;
            continue;
        }
        let ls = if ms > line_start { ms - line_start } else { 0 };
        let le = if me < line_end { me - line_start } else { line_len };
        let ghost before = res@;
        if ls > pos {
            res.push((pos, ls, false));
        }
        let ghost mid = res@;
        if le > ls {
            res.push((ls, le, true));
        }
        proof {
            let b = if ls > pos { seq![(pos as int, ls as int, false)] } else { Seq::<(int, int, bool)>::empty() };
            let h = if le > ls { seq![(ls as int, le as int, true)] } else { Seq::<(int, int, bool)>::empty() };
            assert(piece_ints(mid) =~= piece_ints(before) + b);
            assert(piece_ints(res@) =~= piece_ints(mid) + h);
            assert(piece_ints(res@) + segments_from(line_start as int, line_len as int, all.skip(i + 1), query_len as int, le as int)
                =~= piece_ints(before) + segments_from(line_start as int, line_len as int, rest, query_len as int, pos as int));
        }
        pos = le;
        i = i + 1;
    }
    let ghost before = res@;
    if pos < line_len {
        res.push((pos, line_len, false));
    }
    proof {
        assert(all.skip(i as int) =~= Seq::<usize>::empty());
        assert(piece_ints(res@) =~= piece_ints(before) + segments_from(line_start as int, line_len as int,
            all.skip(i as int), query_len as int, pos as int));
    }
    res
}

/// True when each match starts at or after the end of the one before.
pub open spec fn disjoint_in_order(matches: Seq<usize>, qlen: int) -> bool {
    forall|i: int, j: int| 0 <= i < j < matches.len() ==> #[trigger] matches[i] + qlen <= #[trigger] matches[j]
}

/// True when the pieces follow one another from `from` to `to`, none empty.
pub open spec fn tiles(pieces: Seq<(int, int, bool)>, from: int, to: int) -> bool
    decreases pieces.len(),
{
    if pieces.len() == 0 {
        from == to
    } else {
        pieces[0].0 == from && pieces[0].0 < pieces[0].1 && tiles(pieces.drop_first(), pieces[0].1, to)
    }
}

/// Pieces that tile two adjacent stretches tile both together.
proof fn lemma_tiles_concat(a: Seq<(int, int, bool)>, b: Seq<(int, int, bool)>, x: int, y: int, z: int)
    requires
        tiles(a, x, y),
        tiles(b, y, z),
    ensures
        tiles(a + b, x, z),
    decreases a.len(),
{
    if a.len() > 0 {
        lemma_tiles_concat(a.drop_first(), b, a[0].1, y, z);
        assert((a + b).drop_first() =~= a.drop_first() + b);
    } else {
        assert(a + b =~= b);
    }
}

/// With matches in order and apart, as a search finds them, the pieces of a
/// line cover it exactly, one after the other.
pub proof fn lemma_segments_tile(line_start: int, line_len: int, matches: Seq<usize>, qlen: int, pos: int)
    requires
        0 <= pos <= line_len,
        qlen >= 0,
        disjoint_in_order(matches, qlen),
        forall|k: int| 0 <= k < matches.len() && #[trigger] matches[k] + qlen > line_start
            ==> pos == 0 || pos + line_start <= matches[k],
    ensures
        tiles(segments_from(line_start, line_len, matches, qlen, pos), pos, line_len),
    decreases matches.len(),
{
    if matches.len() == 0 {
        reveal_with_fuel(tiles, 2);
        if pos < line_len {
            assert(seq![(pos, line_len, false)].drop_first() =~= Seq::<(int, int, bool)>::empty());
        }
    } else {
        let ms = matches[0] as int;
        let me = ms + qlen;
        let line_end = line_start + line_len;
        let rest = matches.drop_first();
        assert(disjoint_in_order(rest, qlen)) by {
            assert forall|i: int, j: int| 0 <= i < j < rest.len() implies #[trigger] rest[i] + qlen <= #[trigger] rest[j] by {
                assert(rest[i] == matches[i + 1] && rest[j] == matches[j + 1]);
            }
        }
        assert forall|k: int| 0 <= k < rest.len() implies #[trigger] rest[k] == matches[k + 1]
            && matches[0] + qlen <= rest[k] by {
            assert(matches[0] + qlen <= matches[k + 1]);
        }
        if me <= line_start || ms >= line_end {
            assert forall|k: int| 0 <= k < rest.len() && #[trigger] rest[k] + qlen > line_start
                implies pos == 0 || pos + line_start <= rest[k] by {
                assert(rest[k] == matches[k + 1]);
            }
            lemma_segments_tile(line_start, line_len, rest, qlen, pos);
        } else {
            let ls = if ms > line_start { ms - line_start } else { 0 };
            let le = if me < line_end { me - line_start } else { line_len };
            assert(pos == 0 || pos + line_start <= matches[0]);
            assert(pos <= ls);
            assert(ls <= le);
            assert forall|k: int| 0 <= k < rest.len() && #[trigger] rest[k] + qlen > line_start
                implies le == 0 || le + line_start <= rest[k] by {
                assert(rest[k] == matches[k + 1]);
                assert(matches[0] + qlen <= matches[k + 1]);
            }
            lemma_segments_tile(line_start, line_len, rest, qlen, le);
            let b = if ls > pos { seq![(pos, ls, false)] } else { Seq::<(int, int, bool)>::empty() };
            let h = if le > ls { seq![(ls, le, true)] } else { Seq::<(int, int, bool)>::empty() };
            let tail = segments_from(line_start, line_len, rest, qlen, le);
            assert(tiles(b, pos, ls)) by {
                reveal_with_fuel(tiles, 2);
                if ls > pos {
                    assert(b.drop_first() =~= Seq::<(int, int, bool)>::empty());
                }
            }
            assert(tiles(h, ls, le)) by {
                reveal_with_fuel(tiles, 2);
                if le > ls {
                    assert(h.drop_first() =~= Seq::<(int, int, bool)>::empty());
                }
            }
            lemma_tiles_concat(h, tail, ls, le, line_len);
            lemma_tiles_concat(b, h + tail, pos, ls, line_len);
            assert(b + h + tail =~= b + (h + tail));
        }
    }
}

/// A non-empty line is drawn in pieces that cover it exactly, one after the
/// other, whether a search is active or not, as long as the matches come in
/// order and apart.
pub proof fn lemma_line_pieces_tile(line_start: int, line_len: int, matches: Seq<usize>, qlen: int, search_active: bool)
    requires
        line_len > 0,
        qlen >= 0,
        disjoint_in_order(matches, qlen),
    ensures
        tiles(line_pieces(line_start, line_len, matches, qlen, search_active), 0, line_len),
{
    if search_active {
        lemma_segments_tile(line_start, line_len, matches, qlen, 0);
    } else {
        reveal_with_fuel(tiles, 2);
        assert(seq![(0int, line_len, false)].drop_first() =~= Seq::<(int, int, bool)>::empty());
    }
}

/// Stepping to the next match and back to the previous one returns to the
/// match one started from, and so does the other order.
pub proof fn lemma_next_prev_inverse(i: usize, n: int)
    requires
        0 <= i < n,
        n <= usize::MAX,
    ensures
        prev_index(next_index(Some(i), n), n) == Some(i),
        next_index(prev_index(Some(i), n), n) == Some(i),
{
    if i + 1 < n {
        lemma_small_mod((i + 1) as nat, n as nat);
    } else {
        lemma_mod_self_0(n);
    }
    if i > 0 {
        lemma_small_mod(i as nat, n as nat);
    } else {
        lemma_mod_self_0(n);
    }
}

/// The character positions at which a non-empty `pat` is found in `s` from
/// character `i` on, leftmost first and without overlap.
pub open spec fn positions_from(s: Seq<char>, pat: Seq<char>, i: nat) -> Seq<int>
    decreases s.len() + 1 - i,
{
    if i > s.len() || pat.len() == 0 || i + pat.len() > s.len() {
        Seq::empty()
    } else if occurs_at(s, pat, i as int) {
        seq![i as int] + positions_from(s, pat, i + pat.len())
    } else {
        positions_from(s, pat, i + 1)
    }
}

/// The matches of a non-empty pattern are occurrences of it, in increasing
/// order and without overlap, and each match's byte offset is where its
/// character position begins.
pub proof fn lemma_matches_are_occurrences(s: Seq<char>, pat: Seq<char>, i: nat)
    requires
        pat.len() > 0,
    ensures
        offsets_from(s, pat, i).len() == positions_from(s, pat, i).len(),
        forall|m: int| 0 <= m < positions_from(s, pat, i).len() ==> {
            &&& i <= #[trigger] positions_from(s, pat, i)[m]
            &&& occurs_at(s, pat, positions_from(s, pat, i)[m])
            &&& offsets_from(s, pat, i)[m] == byte_len(s.take(positions_from(s, pat, i)[m]))
        },
        forall|m1: int, m2: int| 0 <= m1 < m2 < positions_from(s, pat, i).len() ==>
            #[trigger] positions_from(s, pat, i)[m1] + pat.len() <= #[trigger] positions_from(s, pat, i)[m2],
    decreases s.len() + 1 - i,
{
    if i > s.len() || i + pat.len() > s.len() {
    } else {
        let next: nat = if occurs_at(s, pat, i as int) { i + pat.len() } else { i + 1 };
        lemma_matches_are_occurrences(s, pat, next);
        let ps = positions_from(s, pat, i);
        let rest = positions_from(s, pat, next);
        if occurs_at(s, pat, i as int) {
            assert(ps == seq![i as int] + rest);
            assert forall|m: int| 0 <= m < ps.len() implies {
                &&& i <= #[trigger] ps[m]
                &&& occurs_at(s, pat, ps[m])
                &&& offsets_from(s, pat, i)[m] == byte_len(s.take(ps[m]))
            } by {
                if m > 0 {
                    assert(ps[m] == rest[m - 1]);
                }
            }
            assert forall|m1: int, m2: int| 0 <= m1 < m2 < ps.len() implies #[trigger] ps[m1] + pat.len()
                <= #[trigger] ps[m2] by {
                assert(ps[m2] == rest[m2 - 1]);
                if m1 > 0 {
                    assert(ps[m1] == rest[m1 - 1]);
                } else {
                    assert(next <= rest[m2 - 1]);
                }
            }
        } else {
            assert(ps == rest);
        }
    }
}

/// The matches of a non-empty pattern from character `i` on lie at or after
/// character `i`, and each ends, in bytes, before the next one begins.
pub proof fn lemma_offsets_apart(s: Seq<char>, pat: Seq<char>, i: nat)
    requires
        pat.len() > 0,
        i <= s.len(),
    ensures
        forall|m: int| 0 <= m < offsets_from(s, pat, i).len()
            ==> byte_len(s.take(i as int)) <= #[trigger] offsets_from(s, pat, i)[m],
        forall|m1: int, m2: int| 0 <= m1 < m2 < offsets_from(s, pat, i).len() ==>
            #[trigger] offsets_from(s, pat, i)[m1] + byte_len(pat) <= #[trigger] offsets_from(s, pat, i)[m2],
    decreases s.len() + 1 - i,
{
    let o = offsets_from(s, pat, i);
    if i + pat.len() > s.len() {
        assert(o.len() == 0);
    } else if occurs_at(s, pat, i as int) {
        let j: nat = i + pat.len();
        lemma_offsets_apart(s, pat, j);
        let rest = offsets_from(s, pat, j);
        assert(o == seq![byte_len(s.take(i as int)) as int] + rest);
        assert(s.take(j as int) =~= s.take(i as int) + pat);
        lemma_byte_len_concat(s.take(i as int), pat);
        assert forall|m: int| 0 <= m < o.len() implies byte_len(s.take(i as int)) <= #[trigger] o[m] by {
            if m > 0 {
                assert(o[m] == rest[m - 1]);
            }
        }
        assert forall|m1: int, m2: int| 0 <= m1 < m2 < o.len() implies
            #[trigger] o[m1] + byte_len(pat) <= #[trigger] o[m2] by {
            assert(o[m2] == rest[m2 - 1]);
            if m1 > 0 {
                assert(o[m1] == rest[m1 - 1]);
            }
        }
    } else {
        lemma_offsets_apart(s, pat, i + 1);
        lemma_byte_len_prefix(s, i as int, i + 1int);
        assert(o == offsets_from(s, pat, i + 1));
    }
}

/// With the matches of a case-sensitive search, and the query's length in
/// bytes as their length, each non-empty line is drawn in pieces that cover
/// it exactly, one after the other.
pub proof fn lemma_search_pieces_tile(text: Seq<char>, query: Seq<char>, matches: Seq<usize>,
    line_start: int, line_len: int, search_active: bool)
    requires
        query.len() > 0,
        line_len > 0,
        as_ints(matches) == offsets_from(text, query, 0),
    ensures
        tiles(line_pieces(line_start, line_len, matches, byte_len(query) as int, search_active), 0, line_len),
{
    lemma_offsets_apart(text, query, 0);
    let o = offsets_from(text, query, 0);
    assert(matches.len() == o.len());
    assert forall|i: int, j: int| 0 <= i < j < matches.len() implies
        #[trigger] matches[i] + byte_len(query) <= #[trigger] matches[j] by {
        assert(o[i] == matches[i] as int && o[j] == matches[j] as int);
    }
    lemma_line_pieces_tile(line_start, line_len, matches, byte_len(query) as int, search_active);
}

/// Replacing every occurrence of a pattern with the pattern itself leaves
/// the text as it was.
pub proof fn lemma_replace_with_itself(s: Seq<char>, pat: Seq<char>, i: nat)
    requires
        i <= s.len(),
    ensures
        replaced_from(s, pat, pat, i) == s.skip(i as int),
    decreases s.len() + 1 - i,
{
    if pat.len() == 0 || i + pat.len() > s.len() {
    } else if occurs_at(s, pat, i as int) {
        lemma_replace_with_itself(s, pat, i + pat.len());
        assert(pat + s.skip((i + pat.len()) as int) =~= s.skip(i as int));
    } else {
        lemma_replace_with_itself(s, pat, i + 1);
        assert(seq![s[i as int]] + s.skip((i + 1) as int) =~= s.skip(i as int));
    }
}

/// A search without case sensitivity depends on the text and the query only
/// through their lower-case forms: two queries that lower-case alike find
/// the same matches, in texts that lower-case alike, whatever the case they
/// are written in. (Lower-casing never empties a non-empty text, so the two
/// queries are both empty or both not.)
pub proof fn lemma_case_insensitive_ignores_case(text1: Seq<char>, text2: Seq<char>, q1: Seq<char>, q2: Seq<char>)
    requires
        lowercased(text1) == lowercased(text2),
        lowercased(q1) == lowercased(q2),
        (q1.len() == 0) == (q2.len() == 0),
    ensures
        search_offsets(text1, q1, false) == search_offsets(text2, q2, false),
{
}

/// Two searches without case sensitivity in the same text, for queries that
/// lower-case alike, leave the same matches and the same selection.
pub proof fn lemma_search_ignores_query_case(a1: SearchState, a0: SearchState, b1: SearchState, b0: SearchState, text: Seq<char>)
    requires
        searched(a1, a0, text),
        searched(b1, b0, text),
        !a0.search_case_sensitive,
        !b0.search_case_sensitive,
        lowercased(a0.search_query@) == lowercased(b0.search_query@),
        (a0.search_query@.len() == 0) == (b0.search_query@.len() == 0),
    ensures
        a1.search_matches@ == b1.search_matches@,
        a1.current_match_index == b1.current_match_index,
{
    lemma_case_insensitive_ignores_case(text, text, a0.search_query@, b0.search_query@);
    let x = a1.search_matches@;
    let y = b1.search_matches@;
    assert(as_ints(x) == as_ints(y));
    assert(x.len() == as_ints(x).len());
    assert forall|i: int| 0 <= i < x.len() implies x[i] == y[i] by {
        assert(as_ints(x)[i] == as_ints(y)[i]);
    }
    assert(x =~= y);
}

} // verus!
