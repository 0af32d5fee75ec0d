//! A document with its version history, as stored inside a `.sen` file.
//!
//! Entries are never removed at once: deleting marks them, and a save drops
//! the marked ones and keeps at most `max_history_length` of the newest.

use vstd::prelude::*;
use crate::text::as_ints;
use crate::clock::{now_timestamp, format_local_timestamp, rfc3339_parses, date_time_text};
use crate::strings::{
    chars_of, find_first, first_occurrence, is_first_occurrence, lemma_first_occurrence,
    lemma_first_occurrence_unique, occurs_at, contains_seq, string_from_chars,
};
use vstd::string::StringExecFns;

verus! {

/// The text between a document's content and its stored history.
pub const HISTORY_SEPARATOR: &'static str = "\n<>\n";

/// The characters of `HISTORY_SEPARATOR`.
pub open spec fn separator() -> Seq<char> {
    seq!['\n', '<', '>', '\n']
}

/// The history size a document gets when its file names none.
pub const DEFAULT_MAX_HISTORY: usize = 1000;

/// The history size a document gets when its file names none.
pub fn default_max_history() -> (res: usize)
    ensures
        res == DEFAULT_MAX_HISTORY,
{
    DEFAULT_MAX_HISTORY
}

/// The auto-save slot stored inside a `.sen` file.
#[derive(Debug)]
pub struct AutosaveEntry {
    /// When the auto-save was made (RFC 3339).
    pub timestamp: String,
    /// The auto-saved text.
    pub content: String,
}

/// What a `.sen` file stores after the separator: the kept versions, the
/// history size and the auto-save slot.
#[derive(Debug)]
pub struct HistoryPayload {
    pub history: Vec<HistoryEntry>,
    pub max_history_length: usize,
    pub autosave: Option<AutosaveEntry>,
}

/// What could be read of the text after the separator of a `.sen` file.
#[derive(Debug)]
pub enum StoredHistory {
    /// The file has no separator: it holds the content alone.
    Absent,
    /// The current layout: versions, history size and auto-save slot.
    Current(HistoryPayload),
    /// The older layout: a bare list of versions.
    Legacy(Vec<HistoryEntry>),
    /// Text that is neither layout.
    Unreadable,
}

/// One saved version of the document.
#[derive(Debug)]
pub struct HistoryEntry {
    /// When this version was made (RFC 3339).
    pub timestamp: String,
    /// The text of this version.
    pub content: String,
    /// The user's comment, if any.
    pub comment: Option<String>,
    /// Marked for deletion; dropped at the next save.
    pub deleted: bool,
}

/// The document's text together with its history and auto-save slot.
#[derive(Debug)]
pub struct DocumentWithHistory {
    /// The text being edited.
    pub current_content: String,
    /// All versions, oldest first, marked ones included.
    pub history: Vec<HistoryEntry>,
    /// How many versions a save keeps at most.
    pub max_history_length: usize,
    /// The auto-save slot.
    pub autosave: Option<AutosaveEntry>,
}

/// A copy of `s`.
pub fn clone_opt_string(s: &Option<String>) -> (res: Option<String>)
    ensures
        res == *s,
{
    match s {
        Some(t) => Some(t.clone()),
        None => None,
    }
}

impl AutosaveEntry {
    /// A copy of this entry.
    pub fn duplicate(&self) -> (res: AutosaveEntry)
        ensures
            res == *self,
    {
        AutosaveEntry { timestamp: self.timestamp.clone(), content: self.content.clone() }
    }
}

/// A copy of `a`.
pub fn clone_autosave(a: &Option<AutosaveEntry>) -> (res: Option<AutosaveEntry>)
    ensures
        res == *a,
{
    match a {
        Some(e) => Some(e.duplicate()),
        None => None,
    }
}

impl HistoryEntry {
    /// A copy of this entry.
    pub fn duplicate(&self) -> (res: HistoryEntry)
        ensures
            res == *self,
    {
        HistoryEntry {
            timestamp: self.timestamp.clone(),
            content: self.content.clone(),
            comment: clone_opt_string(&self.comment),
            deleted: self.deleted,
        }
    }

    /// The entry's time in the local time zone, as `YYYY-MM-DD HH:MM:SS`;
    /// a timestamp that is not RFC 3339 is shown as it is. Which date and
    /// time are shown depends on the machine's time zone.
    pub fn display_timestamp(&self) -> (res: String)
        ensures
            rfc3339_parses(self.timestamp@) ==> date_time_text(res@),
            !rfc3339_parses(self.timestamp@) ==> res@ == self.timestamp@,
    {
        match format_local_timestamp(self.timestamp.as_str(), "%Y-%m-%d %H:%M:%S") {
            Some(t) => t,
            None => self.timestamp.clone(),
        }
    }
}

/// The positions of the entries of `h` that are not marked deleted, in order.
pub open spec fn visible_indices(h: Seq<HistoryEntry>) -> Seq<int>
    decreases h.len(),
{
    if h.len() == 0 {
        Seq::empty()
    } else if h.last().deleted {
        visible_indices(h.drop_last())
    } else {
        visible_indices(h.drop_last()).push(h.len() - 1)
    }
}

/// How many entries of `h` are not marked deleted.
pub open spec fn visible_count(h: Seq<HistoryEntry>) -> nat {
    visible_indices(h).len()
}

/// The positions of the entries that a save keeps: the newest `max` visible ones.
pub open spec fn active_indices(h: Seq<HistoryEntry>, max: nat) -> Seq<int> {
    let v = visible_indices(h);
    if v.len() > max {
        v.subrange(v.len() - max, v.len() as int)
    } else {
        v
    }
}

/// The entries that a save keeps.
pub open spec fn active_entries(h: Seq<HistoryEntry>, max: nat) -> Seq<HistoryEntry> {
    active_indices(h, max).map_values(|i: int| h[i])
}

/// How many of `count` exceed `max`.
pub open spec fn excess(count: nat, max: nat) -> nat {
    if count > max { (count - max) as nat } else { 0 }
}

/// The version that the history list moves to with the arrow keys, from
/// the one loaded: `newer` moves up to the next newer visible entry, else
/// down to the next older one. With nothing loaded, up moves to the newest
/// entry and down does nothing; at either end, or when the loaded entry is
/// not listed, nothing moves.
pub open spec fn history_step(visible: Seq<usize>, loaded: Option<usize>, newer: bool) -> Option<usize> {
    match loaded {
        None => if newer && visible.len() > 0 { Some(visible.last()) } else { None },
        Some(l) => match visible.index_of_first(l) {
            None => None,
            Some(pos) => if newer {
                if pos + 1 < visible.len() { Some(visible[pos + 1]) } else { None }
            } else {
                if pos > 0 { Some(visible[pos - 1]) } else { None }
            },
        },
    }
}

/// The entry that an arrow key in the history list loads, if any; `visible`
/// holds the positions of the entries listed, oldest first.
pub fn history_step_target(visible: &[usize], loaded: Option<usize>, newer: bool) -> (res: Option<usize>)
    ensures
        res == history_step(visible@, loaded, newer),
{
    match loaded {
        None => {
            if newer && visible.len() > 0 {
                Some(visible[visible.len() - 1])
            } else {
                None
            }
        },
        Some(l) => {
            let mut pos: usize = 0;
            while pos < visible.len() && visible[pos] != l
                invariant
                    pos <= visible@.len(),
                    forall|j: int| 0 <= j < pos ==> visible@[j] != l,
                decreases visible@.len() - pos,
            {
                pos = pos + 1;
            }
            proof { visible@.index_of_first_ensures(l); }
            if pos == visible.len() {
                return None;
            }
            proof {
                let f = visible@.index_of_first(l);
                assert(visible@.contains(l)) by { assert(visible@[pos as int] == l); }
                let q = f.unwrap();
                if q < pos {
                    assert(visible@[q] != l);
                }
                if q > pos {
                    assert(visible@[pos as int] != l);
                }
                assert(q == pos);
            }
            if newer {
                if pos + 1 < visible.len() { Some(visible[pos + 1]) } else { None }
            } else {
                if pos > 0 { Some(visible[pos - 1]) } else { None }
            }
        },
    }
}

/// In a list of distinct entries, moving up and then down again returns to
/// the entry one started from, wherever a move up is possible; so does
/// moving down and then up.
pub proof fn lemma_history_step_inverse(visible: Seq<usize>, l: usize)
    requires
        forall|i: int, j: int| 0 <= i < j < visible.len() ==> visible[i] != visible[j],
    ensures
        history_step(visible, Some(l), true) is Some
            ==> history_step(visible, history_step(visible, Some(l), true), false) == Some(l),
        history_step(visible, Some(l), false) is Some
            ==> history_step(visible, history_step(visible, Some(l), false), true) == Some(l),
{
    visible.index_of_first_ensures(l);
    if visible.contains(l) {
        let pos = visible.index_of_first(l).unwrap();
        if pos + 1 < visible.len() {
            let m = visible[pos + 1];
            visible.index_of_first_ensures(m);
            assert(visible.contains(m));
            let q = visible.index_of_first(m).unwrap();
            assert(q == pos + 1);
        }
        if pos > 0 {
            let m = visible[pos - 1];
            visible.index_of_first_ensures(m);
            assert(visible.contains(m));
            let q = visible.index_of_first(m).unwrap();
            assert(q == pos - 1);
        }
    }
}

/// `h` with its oldest visible entries marked deleted until at most `max`
/// stay visible.
pub open spec fn trimmed(h: Seq<HistoryEntry>, max: nat) -> Seq<HistoryEntry> {
    Seq::new(h.len(), |i: int| HistoryEntry {
        deleted: h[i].deleted || visible_count(h.take(i)) < excess(visible_count(h), max),
        ..h[i]
    })
}

/// `o` read through the view of its string.
pub open spec fn opt_view(o: Option<String>) -> Option<Seq<char>> {
    match o {
        Some(t) => Some(t@),
        None => None,
    }
}

/// How a file's text splits into the content and what follows the first separator.
pub open spec fn split_content(s: Seq<char>) -> (Seq<char>, Option<Seq<char>>) {
    match first_occurrence(s, separator()) {
        Some(i) => (s.take(i), Some(s.skip(i + separator().len()))),
        None => (s, None),
    }
}

/// The text of a file that stores `payload` after `content`.
pub open spec fn join_content(content: Seq<char>, payload: Seq<char>) -> Seq<char> {
    content + separator() + payload
}

/// True when writing `content` before the separator cannot make a reader
/// find the separator earlier than where it was written.
pub open spec fn separator_safe(content: Seq<char>) -> bool {
    forall|j: int| 0 <= j < content.len() ==> !occurs_at(content + separator(), separator(), j)
}

/// True when `p` is what a save of `d` stores.
pub open spec fn payload_of(d: DocumentWithHistory, p: HistoryPayload) -> bool {
    &&& p.history@ == active_entries(d.history@, d.max_history_length as nat)
    &&& p.max_history_length == d.max_history_length
    &&& p.autosave == d.autosave
}

/// True when a save of `d` stores a history section at all.
pub open spec fn stores_payload(d: DocumentWithHistory) -> bool {
    active_entries(d.history@, d.max_history_length as nat).len() > 0 || d.autosave is Some
}

/// The versions a document read from `stored` holds.
pub open spec fn loaded_history(stored: StoredHistory) -> Seq<HistoryEntry> {
    match stored {
        StoredHistory::Current(p) => p.history@,
        StoredHistory::Legacy(v) => v@,
        _ => Seq::empty(),
    }
}

/// The history size of a document read from `stored`.
pub open spec fn loaded_max(stored: StoredHistory) -> usize {
    match stored {
        StoredHistory::Current(p) => p.max_history_length,
        _ => DEFAULT_MAX_HISTORY,
    }
}

/// The auto-save slot of a document read from `stored`.
pub open spec fn loaded_autosave(stored: StoredHistory) -> Option<AutosaveEntry> {
    match stored {
        StoredHistory::Current(p) => p.autosave,
        _ => None,
    }
}

/// The visible positions are increasing, in range, unmarked, and every unmarked
/// position is among them.
pub proof fn lemma_visible_indices(h: Seq<HistoryEntry>)
    ensures
        forall|k: int| 0 <= k < visible_indices(h).len() ==> 0 <= #[trigger] visible_indices(h)[k] < h.len(),
        forall|k: int| 0 <= k < visible_indices(h).len() ==> !h[#[trigger] visible_indices(h)[k]].deleted,
        forall|k1: int, k2: int| 0 <= k1 < k2 < visible_indices(h).len()
            ==> #[trigger] visible_indices(h)[k1] < #[trigger] visible_indices(h)[k2],
        forall|i: int| 0 <= i < h.len() && !h[i].deleted ==> visible_indices(h).contains(i),
        visible_indices(h).len() <= h.len(),
    decreases h.len(),
{
    if h.len() > 0 {
        lemma_visible_indices(h.drop_last());
        let r = visible_indices(h.drop_last());
        assert forall|i: int| 0 <= i < h.len() && !h[i].deleted implies visible_indices(h).contains(i) by {
            if i < h.len() - 1 {
                assert(h.drop_last()[i] == h[i]);
                assert(r.contains(i));
                let k = choose|k: int| 0 <= k < r.len() && r[k] == i;
                if h.last().deleted {
                    assert(visible_indices(h)[k] == i);
                } else {
                    assert(visible_indices(h)[k] == r.push(h.len() - 1)[k]);
                }
            } else {
                assert(visible_indices(h)[visible_indices(h).len() - 1] == i);
            }
        }
    }
}

/// The visible positions of a prefix of `h` begin the visible positions of `h`.
pub proof fn lemma_visible_prefix(h: Seq<HistoryEntry>, n: int)
    requires
        0 <= n <= h.len(),
    ensures
        visible_indices(h.take(n)).len() <= visible_indices(h).len(),
        visible_indices(h.take(n)) == visible_indices(h).take(visible_indices(h.take(n)).len() as int),
    decreases h.len(),
{
    if n == h.len() {
        assert(h.take(n) =~= h);
    } else {
        lemma_visible_prefix(h.drop_last(), n);
        assert(h.drop_last().take(n) =~= h.take(n));
        let a = visible_indices(h.take(n));
        let b = visible_indices(h.drop_last());
        assert(visible_indices(h).take(a.len() as int) =~= b.take(a.len() as int));
    }
}

impl DocumentWithHistory {
    /// An empty document whose saves keep at most `max_history_length` versions.
    pub fn new_with_limit(max_history_length: usize) -> (res: Self)
        ensures
            res.current_content@ == Seq::<char>::empty(),
            res.history@ == Seq::<HistoryEntry>::empty(),
            res.max_history_length == max_history_length,
            res.autosave is None,
    {
        DocumentWithHistory {
            current_content: String::new(),
            history: Vec::new(),
            max_history_length,
            autosave: None,
        }
    }

    /// The positions of the visible entries, oldest first.
    fn visible_index_list(&self) -> (res: Vec<usize>)
        ensures
            as_ints(res@) == visible_indices(self.history@),
    {
        let mut res: Vec<usize> = Vec::new();
        let mut i: usize = 0;
        while i < self.history.len()
            invariant
                i <= self.history@.len(),
                as_ints(res@) == visible_indices(self.history@.take(i as int)),
            decreases self.history@.len() - i,
        {
            let ghost before = res@;
            assert(self.history@.take(i + 1).drop_last() =~= self.history@.take(i as int));
            if !self.history[i].deleted {
                res.push(i);
                assert(as_ints(res@) =~= as_ints(before).push(i as int));
            }
            i = i + 1;
        }
        assert(self.history@.take(i as int) =~= self.history@);
        res
    }

    /// The maximum number of versions a save keeps.
    pub fn get_max_history_length(&self) -> (res: usize)
        ensures
            res == self.max_history_length,
    {
        self.max_history_length
    }

    /// Sets how many versions the history keeps, at least one, and marks the
    /// oldest visible versions beyond it deleted.
    pub fn set_max_history_length(&mut self, max_length: usize)
        ensures
            final(self).max_history_length == if max_length >= 1 { max_length } else { 1 },
            final(self).history@ == trimmed(old(self).history@, final(self).max_history_length as nat),
            visible_count(final(self).history@) <= final(self).max_history_length,
            final(self).current_content == old(self).current_content,
            final(self).autosave == old(self).autosave,
            keeps_versions(old(self).history@, final(self).history@),
    {
        self.max_history_length = if max_length >= 1 { max_length } else { 1 };
        self.trim_to_limit();
        proof {
            lemma_trim_keeps_newest(old(self).history@, self.history@, self.max_history_length as nat);
        }
    }

    /// The visible entries with their positions in `history`, oldest first.
    pub fn get_visible_history(&self) -> (res: Vec<(usize, &HistoryEntry)>)
        ensures
            res@.len() == visible_count(self.history@),
            forall|k: int| 0 <= k < res@.len() ==> {
                &&& (#[trigger] res@[k]).0 as int == visible_indices(self.history@)[k]
                &&& *res@[k].1 == self.history@[res@[k].0 as int]
            },
    {
        let idx = self.visible_index_list();
        proof { lemma_visible_indices(self.history@); }
        let mut res: Vec<(usize, &HistoryEntry)> = Vec::new();
        let mut k: usize = 0;
        while k < idx.len()
            invariant
                as_ints(idx@) == visible_indices(self.history@),
                k <= idx@.len(),
                res@.len() == k,
                forall|m: int| 0 <= m < idx@.len() ==> 0 <= #[trigger] visible_indices(self.history@)[m] < self.history@.len(),
                forall|m: int| 0 <= m < k ==> {
                    &&& (#[trigger] res@[m]).0 as int == visible_indices(self.history@)[m]
                    &&& *res@[m].1 == self.history@[res@[m].0 as int]
                },
            decreases idx@.len() - k,
        {
            let i = idx[k];
            assert(as_ints(idx@)[k as int] == i as int);
            res.push((i, &self.history[i]));
            k = k + 1;
        }
        res
    }

    /// Shows the version at `index` as the current text, when that entry is visible.
    pub fn load_version(&mut self, index: usize) -> (res: bool)
        ensures
            res == (index < old(self).history@.len() && !old(self).history@[index as int].deleted),
            res ==> final(self).current_content == old(self).history@[index as int].content,
            !res ==> final(self).current_content == old(self).current_content,
            final(self).history@ == old(self).history@,
            final(self).max_history_length == old(self).max_history_length,
            final(self).autosave == old(self).autosave,
    {
        if index < self.history.len() && !self.history[index].deleted {
            self.current_content = self.history[index].content.clone();
            true
        } else {
            false
        }
    }

    /// Marks the entry at `index` deleted, when there is one.
    pub fn mark_entry_deleted(&mut self, index: usize) -> (res: bool)
        ensures
            res == (index < old(self).history@.len()),
            res ==> final(self).history@ == old(self).history@.update(
                index as int,
                HistoryEntry { deleted: true, ..old(self).history@[index as int] },
            ),
            !res ==> final(self).history@ == old(self).history@,
            final(self).current_content == old(self).current_content,
            final(self).max_history_length == old(self).max_history_length,
            final(self).autosave == old(self).autosave,
            keeps_versions(old(self).history@, final(self).history@),
    {
        if index < self.history.len() {
            self.history[index].deleted = true;
            true
        } else {
            false
        }
    }

    /// Records the current text as a new version, unless the newest visible
    /// version already holds the same text, then marks the oldest visible
    /// versions beyond `max_history_length` deleted. Returns whether a
    /// version was added.
    pub fn add_snapshot(&mut self, comment: Option<String>) -> (res: bool)
        ensures
            ({
                let v = visible_indices(old(self).history@);
                let dup = v.len() > 0 && old(self).history@[v.last()].content@ == old(self).current_content@;
                let added = HistoryEntry { deleted: false, ..final(self).history@.last() };
                &&& res == !dup
                &&& dup ==> final(self).history@ == old(self).history@
                &&& !dup ==> {
                    &&& final(self).history@ == trimmed(old(self).history@.push(added), old(self).max_history_length as nat)
                    &&& added.content == old(self).current_content
                    &&& added.comment == comment
                    &&& visible_count(final(self).history@) <= old(self).max_history_length
                }
            }),
            final(self).current_content == old(self).current_content,
            final(self).max_history_length == old(self).max_history_length,
            final(self).autosave == old(self).autosave,
            keeps_versions(old(self).history@, final(self).history@),
    {
        let idx = self.visible_index_list();
        proof { lemma_visible_indices(self.history@); }
        if idx.len() > 0 {
            let last = idx[idx.len() - 1];
            assert(as_ints(idx@)[idx@.len() - 1] == last as int);
            if self.history[last].content == self.current_content {
                return false;
            }
        }
        let snapshot = HistoryEntry {
            content: self.current_content.clone(),
            timestamp: now_timestamp(),
            comment,
            deleted: false,
        };
        let ghost added = snapshot;
        self.history.push(snapshot);
        let ghost pushed = self.history@;
        assert(pushed =~= old(self).history@.push(added));
        self.trim_to_limit();
        proof {
            assert(self.history@ =~= trimmed(pushed, self.max_history_length as nat));
            assert(self.history@.last() == HistoryEntry { deleted: self.history@.last().deleted, ..added });
            assert(HistoryEntry { deleted: false, ..self.history@.last() } == added);
            lemma_trim_keeps_newest(pushed, self.history@, self.max_history_length as nat);
        }
        true
    }

    /// Marks the oldest visible versions deleted until at most
    /// `max_history_length` stay visible.
    pub fn trim_to_limit(&mut self)
        ensures
            ({
                let h = old(self).history@;
                let d = excess(visible_count(h), old(self).max_history_length as nat);
                &&& final(self).history@.len() == h.len()
                &&& forall|i: int| 0 <= i < h.len() ==> #[trigger] final(self).history@[i] == (HistoryEntry {
                    deleted: h[i].deleted || visible_count(h.take(i)) < d,
                    ..h[i]
                })
            }),
            final(self).history@ == trimmed(old(self).history@, old(self).max_history_length as nat),
            final(self).current_content == old(self).current_content,
            final(self).max_history_length == old(self).max_history_length,
            final(self).autosave == old(self).autosave,
            keeps_versions(old(self).history@, final(self).history@),
    {
        let idx = self.visible_index_list();
        let visible = idx.len();
        let max = self.max_history_length;
        let to_delete: usize = if visible > max { visible - max } else { 0 };
        let ghost h = old(self).history@;
        let mut deleted_count: usize = 0;
        let mut i: usize = 0;
        while i < self.history.len()
            invariant
                self.history@.len() == h.len(),
                i <= h.len(),
                self.current_content == old(self).current_content,
                self.max_history_length == old(self).max_history_length,
                self.autosave == old(self).autosave,
                to_delete == excess(visible_count(h), max as nat),
                deleted_count as int == if visible_count(h.take(i as int)) < to_delete {
                    visible_count(h.take(i as int)) as int
                } else {
                    to_delete as int
                },
                forall|j: int| 0 <= j < i ==> #[trigger] self.history@[j] == (HistoryEntry {
                    deleted: h[j].deleted || visible_count(h.take(j)) < to_delete,
                    ..h[j]
                }),
                forall|j: int| i <= j < h.len() ==> #[trigger] self.history@[j] == h[j],
            decreases h.len() - i,
        {
            assert(h.take(i + 1).drop_last() =~= h.take(i as int));
            if deleted_count < to_delete && !self.history[i].deleted {
                self.history[i].deleted = true;
                deleted_count = deleted_count + 1;
            }
            i = i + 1;
        }
        assert(self.history@ =~= trimmed(h, max as nat));
    }

    /// Shows the version at `index` and marks every newer version deleted,
    /// when the entry at `index` is visible. Returns whether it was.
    pub fn revert_to_version(&mut self, index: usize) -> (res: bool)
        ensures
            res == (index < old(self).history@.len() && !old(self).history@[index as int].deleted),
            res ==> final(self).current_content == old(self).history@[index as int].content,
            res ==> final(self).history@.len() == old(self).history@.len(),
            res ==> forall|i: int| 0 <= i < old(self).history@.len() ==> #[trigger] final(self).history@[i]
                == (if i > index { HistoryEntry { deleted: true, ..old(self).history@[i] } } else { old(self).history@[i] }),
            !res ==> final(self).current_content == old(self).current_content,
            !res ==> final(self).history@ == old(self).history@,
            final(self).max_history_length == old(self).max_history_length,
            final(self).autosave == old(self).autosave,
            keeps_versions(old(self).history@, final(self).history@),
    {
        if index < self.history.len() && !self.history[index].deleted {
            self.current_content = self.history[index].content.clone();
            let mut i: usize = index + 1;
            while i < self.history.len()
                invariant
                    index < old(self).history@.len(),
                    self.history@.len() == old(self).history@.len(),
                    index + 1 <= i <= self.history@.len(),
                    self.current_content == old(self).history@[index as int].content,
                    self.max_history_length == old(self).max_history_length,
                    self.autosave == old(self).autosave,
                    forall|j: int| 0 <= j < self.history@.len() ==> #[trigger] self.history@[j]
                        == (if index < j < i { HistoryEntry { deleted: true, ..old(self).history@[j] } } else { old(self).history@[j] }),
                decreases self.history@.len() - i,
            {
                self.history[i].deleted = true;
                i = i + 1;
            }
            true
        } else {
            false
        }
    }

    /// Marks every version deleted.
    pub fn mark_all_deleted(&mut self)
        ensures
            final(self).history@.len() == old(self).history@.len(),
            forall|i: int| 0 <= i < old(self).history@.len() ==> #[trigger] final(self).history@[i]
                == (HistoryEntry { deleted: true, ..old(self).history@[i] }),
            final(self).current_content == old(self).current_content,
            final(self).max_history_length == old(self).max_history_length,
            final(self).autosave == old(self).autosave,
            keeps_versions(old(self).history@, final(self).history@),
    {
        let mut i: usize = 0;
        while i < self.history.len()
            invariant
                self.history@.len() == old(self).history@.len(),
                i <= self.history@.len(),
                self.current_content == old(self).current_content,
                self.max_history_length == old(self).max_history_length,
                self.autosave == old(self).autosave,
                forall|j: int| 0 <= j < self.history@.len() ==> #[trigger] self.history@[j]
                    == (if j < i { HistoryEntry { deleted: true, ..old(self).history@[j] } } else { old(self).history@[j] }),
            decreases self.history@.len() - i,
        {
            self.history[i].deleted = true;
            i = i + 1;
        }
    }

    /// The versions a save keeps: the newest `max_history_length` visible ones, oldest first.
    pub fn active_history(&self) -> (res: Vec<HistoryEntry>)
        ensures
            res@ == active_entries(self.history@, self.max_history_length as nat),
    {
        let idx = self.visible_index_list();
        proof { lemma_visible_indices(self.history@); }
        let ghost v = visible_indices(self.history@);
        let skip: usize = if idx.len() > self.max_history_length { idx.len() - self.max_history_length } else { 0 };
        let ghost act = active_indices(self.history@, self.max_history_length as nat);
        assert(act =~= v.subrange(skip as int, v.len() as int));
        let mut res: Vec<HistoryEntry> = Vec::new();
        let mut k: usize = skip;
        while k < idx.len()
            invariant
                as_ints(idx@) == v,
                v == visible_indices(self.history@),
                act == v.subrange(skip as int, v.len() as int),
                skip <= k <= idx@.len(),
                forall|m: int| 0 <= m < v.len() ==> 0 <= #[trigger] v[m] < self.history@.len(),
                res@ == act.take(k - skip).map_values(|i: int| self.history@[i]),
            decreases idx@.len() - k,
        {
            let i = idx[k];
            assert(as_ints(idx@)[k as int] == i as int);
            let e = self.history[i].duplicate();
            let ghost before = res@;
            res.push(e);
            assert(act.take(k + 1 - skip) =~= act.take(k - skip).push(i as int));
            assert(res@ =~= act.take(k + 1 - skip).map_values(|i: int| self.history@[i]));
            k = k + 1;
        }
        assert(act.take(k - skip) =~= act);
        res
    }

    /// What a save stores after the separator, or `None` when there is no
    /// version to keep and no auto-save, in which case the file holds the content alone.
    pub fn history_payload(&self) -> (res: Option<HistoryPayload>)
        ensures
            res is Some <==> stores_payload(*self),
            res matches Some(p) ==> payload_of(*self, p),
    {
        let active = self.active_history();
        if active.len() == 0 && self.autosave.is_none() {
            None
        } else {
            Some(HistoryPayload {
                history: active,
                max_history_length: self.max_history_length,
                autosave: clone_autosave(&self.autosave),
            })
        }
    }

    /// The document read from a file whose content is `current_content` and whose
    /// history section read as `stored`.
    pub fn from_file_sections(current_content: String, stored: StoredHistory) -> (res: Self)
        ensures
            res.current_content == current_content,
            res.history@ == loaded_history(stored),
            res.max_history_length == loaded_max(stored),
            res.autosave == loaded_autosave(stored),
    {
        match stored {
            StoredHistory::Current(p) => DocumentWithHistory {
                current_content,
                history: p.history,
                max_history_length: p.max_history_length,
                autosave: p.autosave,
            },
            StoredHistory::Legacy(history) => DocumentWithHistory {
                current_content,
                history,
                max_history_length: DEFAULT_MAX_HISTORY,
                autosave: None,
            },
            _ => DocumentWithHistory {
                current_content,
                history: Vec::new(),
                max_history_length: DEFAULT_MAX_HISTORY,
                autosave: None,
            },
        }
    }

    /// Clears the auto-save slot.
    pub fn clear_autosave(&mut self)
        ensures
            final(self).autosave is None,
            final(self).history@ == old(self).history@,
            final(self).current_content == old(self).current_content,
            final(self).max_history_length == old(self).max_history_length,
    {
        self.autosave = None;
    }

    /// Fills the auto-save slot with `content`, stamped with the current time.
    pub fn set_autosave(&mut self, content: String)
        ensures
            final(self).autosave matches Some(a) && a.content == content,
            final(self).history@ == old(self).history@,
            final(self).current_content == old(self).current_content,
            final(self).max_history_length == old(self).max_history_length,
    {
        self.autosave = Some(AutosaveEntry { timestamp: now_timestamp(), content });
    }
}

/// Splits a file's text into the content and the text after the first separator.
pub fn split_file_content(file_content: &str) -> (res: (String, Option<String>))
    ensures
        (res.0@, opt_view(res.1)) == split_content(file_content@),
{
    let chars = chars_of(file_content);
    let sep = vec!['\n', '<', '>', '\n'];
    assert(sep@ =~= separator());
    match find_first(&chars, &sep) {
        Some(pos) => {
            proof { crate::strings::lemma_first_occurrence_found(chars@, sep@); }
            assert(occurs_at(chars@, sep@, pos as int));
            let n = chars.len();
            assert(pos + 4 <= n);
            let content = string_from_chars(&chars, 0, pos);
            let rest = string_from_chars(&chars, pos + 4, chars.len());
            assert(content@ =~= file_content@.take(pos as int));
            assert(rest@ =~= file_content@.skip(pos + 4));
            (content, Some(rest))
        },
        None => {
            let content = string_from_chars(&chars, 0, chars.len());
            assert(content@ =~= file_content@);
            (content, None)
        },
    }
}

/// The text of a file that stores `payload` after `content`.
pub fn join_file_content(content: &str, payload: &str) -> (res: String)
    ensures
        res@ == join_content(content@, payload@),
{
    let mut res = content.to_owned();
    res.append(HISTORY_SEPARATOR);
    res.append(payload);
    proof {
        reveal_strlit("\n<>\n");
        assert(HISTORY_SEPARATOR@ =~= separator());
        assert(res@ =~= join_content(content@, payload@));
    }
    res
}

/// A reader finds the stored history where a writer put it: splitting
/// `content + separator + payload` gives back `content` and `payload`,
/// provided `content` does not itself make the separator appear earlier.
pub proof fn lemma_split_join(content: Seq<char>, payload: Seq<char>)
    requires
        separator_safe(content),
    ensures
        split_content(join_content(content, payload)) == (content, Some(payload)),
{
    let s = join_content(content, payload);
    let n = content.len() as int;
    assert(s.subrange(n, n + 4) =~= separator());
    assert(occurs_at(s, separator(), n));
    assert forall|j: int| 0 <= j < n implies !occurs_at(s, separator(), j) by {
        assert(!occurs_at(content + separator(), separator(), j));
        assert(s.subrange(j, j + 4) =~= (content + separator()).subrange(j, j + 4));
    }
    assert(is_first_occurrence(s, separator(), n));
    lemma_first_occurrence(s, separator(), n);
    let f = first_occurrence(s, separator())->0;
    lemma_first_occurrence_unique(s, separator(), f, n);
    assert(s.take(n) =~= content);
    assert(s.skip(n + 4) =~= payload);
}

/// A file whose content holds no separator reads back as that content alone.
pub proof fn lemma_split_plain(content: Seq<char>)
    requires
        !contains_seq(content, separator()),
    ensures
        split_content(content) == (content, None::<Seq<char>>),
{
}

/// What a save stores reads back as the document's kept versions, history
/// size and auto-save slot; the kept versions are all visible, at most
/// `max_history_length` of them, and saving them again stores the same ones.
pub proof fn lemma_save_then_load(d: DocumentWithHistory, p: HistoryPayload)
    requires
        payload_of(d, p),
    ensures
        loaded_history(StoredHistory::Current(p)) == active_entries(d.history@, d.max_history_length as nat),
        loaded_max(StoredHistory::Current(p)) == d.max_history_length,
        loaded_autosave(StoredHistory::Current(p)) == d.autosave,
        loaded_history(StoredHistory::Current(p)).len() <= d.max_history_length,
        visible_count(loaded_history(StoredHistory::Current(p))) == loaded_history(StoredHistory::Current(p)).len(),
        active_entries(loaded_history(StoredHistory::Current(p)), d.max_history_length as nat)
            == loaded_history(StoredHistory::Current(p)),
{
    let h = d.history@;
    let m = d.max_history_length as nat;
    let a = active_entries(h, m);
    lemma_visible_indices(h);
    lemma_active_entries_visible(h, m);
    lemma_all_visible(a);
    let v = visible_indices(a);
    assert(active_indices(a, m) =~= v);
    assert(active_entries(a, m) =~= a);
}

/// The kept versions are at most `max` visible versions.
pub proof fn lemma_active_entries_visible(h: Seq<HistoryEntry>, max: nat)
    ensures
        active_entries(h, max).len() <= max,
        active_entries(h, max).len() == if visible_count(h) > max { max } else { visible_count(h) },
        forall|k: int| 0 <= k < active_entries(h, max).len() ==> !(#[trigger] active_entries(h, max)[k]).deleted,
{
    lemma_visible_indices(h);
    let v = visible_indices(h);
    let a = active_indices(h, max);
    assert forall|k: int| 0 <= k < active_entries(h, max).len() implies !(#[trigger] active_entries(h, max)[k]).deleted by {
        if v.len() > max {
            assert(a[k] == v[k + v.len() - max]);
        }
    }
}

/// When no entry is marked, every position is visible.
pub proof fn lemma_all_visible(h: Seq<HistoryEntry>)
    requires
        forall|k: int| 0 <= k < h.len() ==> !(#[trigger] h[k]).deleted,
    ensures
        visible_indices(h) == Seq::new(h.len(), |i: int| i),
    decreases h.len(),
{
    if h.len() > 0 {
        lemma_all_visible(h.drop_last());
        assert(visible_indices(h) =~= Seq::new(h.len(), |i: int| i));
    }
}

/// After a version is added for the current text, the newest visible version
/// holds that text, so adding again before the text changes adds nothing.
pub proof fn lemma_snapshot_not_repeated(h: Seq<HistoryEntry>, e: HistoryEntry)
    requires
        !e.deleted,
    ensures
        ({
            let v = visible_indices(h.push(e));
            v.len() > 0 && h.push(e)[v.last()] == e
        }),
{
    assert(h.push(e).drop_last() =~= h);
}

/// Entries past `n` that are all marked leave the visible positions those of the first `n`.
pub proof fn lemma_marked_tail(h: Seq<HistoryEntry>, n: int)
    requires
        0 <= n <= h.len(),
        forall|i: int| n <= i < h.len() ==> (#[trigger] h[i]).deleted,
    ensures
        visible_indices(h) == visible_indices(h.take(n)),
    decreases h.len(),
{
    if h.len() == n {
        assert(h.take(n) =~= h);
    } else {
        lemma_marked_tail(h.drop_last(), n);
        assert(h.drop_last().take(n) =~= h.take(n));
    }
}

/// Once every version is marked, none is visible and a save keeps none.
pub proof fn lemma_all_marked(h: Seq<HistoryEntry>, max: nat)
    requires
        forall|i: int| 0 <= i < h.len() ==> (#[trigger] h[i]).deleted,
    ensures
        visible_count(h) == 0,
        active_entries(h, max).len() == 0,
{
    lemma_marked_tail(h, 0);
    assert(h.take(0) =~= Seq::<HistoryEntry>::empty());
}

/// After a revert to `index`, the version at `index` is the newest visible one.
pub proof fn lemma_revert_newest(h: Seq<HistoryEntry>, h2: Seq<HistoryEntry>, index: int)
    requires
        0 <= index < h.len(),
        !h[index].deleted,
        h2.len() == h.len(),
        forall|i: int| 0 <= i < h.len() ==> #[trigger] h2[i]
            == (if i > index { HistoryEntry { deleted: true, ..h[i] } } else { h[i] }),
    ensures
        visible_indices(h2).len() > 0,
        visible_indices(h2).last() == index,
        forall|k: int| 0 <= k < visible_indices(h2).len() ==> #[trigger] visible_indices(h2)[k] <= index,
{
    assert forall|i: int| index + 1 <= i < h2.len() implies (#[trigger] h2[i]).deleted by {
        assert(h2[i] == HistoryEntry { deleted: true, ..h[i] });
    }
    lemma_marked_tail(h2, index + 1);
    let p = h2.take(index + 1);
    assert(p.drop_last() =~= h2.take(index));
    assert(p.last() == h[index]);
    lemma_visible_indices(p);
}

/// Marking by prefix count: an entry is marked when fewer than `d` visible
/// entries precede it. Then the visible positions lose exactly the first `d`.
proof fn lemma_trim_prefix(h: Seq<HistoryEntry>, h2: Seq<HistoryEntry>, d: nat, n: int)
    requires
        h2.len() == h.len(),
        0 <= n <= h.len(),
        forall|i: int| 0 <= i < h.len() ==> #[trigger] h2[i] == (HistoryEntry {
            deleted: h[i].deleted || visible_count(h.take(i)) < d,
            ..h[i]
        }),
    ensures
        ({
            let v = visible_indices(h.take(n));
            visible_indices(h2.take(n)) == v.subrange(if d < v.len() { d as int } else { v.len() as int }, v.len() as int)
        }),
    decreases n,
{
    if n == 0 {
        assert(h.take(0) =~= Seq::<HistoryEntry>::empty());
        assert(h2.take(0) =~= Seq::<HistoryEntry>::empty());
    } else {
        lemma_trim_prefix(h, h2, d, n - 1);
        assert(h.take(n).drop_last() =~= h.take(n - 1));
        assert(h2.take(n).drop_last() =~= h2.take(n - 1));
        assert(h2.take(n).last() == h2[n - 1]);
        assert(h.take(n).last() == h[n - 1]);
        let v = visible_indices(h.take(n - 1));
        let w = visible_indices(h.take(n));
        assert(h2[n - 1] == HistoryEntry { deleted: h[n - 1].deleted || visible_count(h.take(n - 1)) < d, ..h[n - 1] });
        if h[n - 1].deleted {
        } else if v.len() < d {
            assert(w =~= v.push(n - 1));
            assert(w.subrange(w.len() as int, w.len() as int) =~= v.subrange(v.len() as int, v.len() as int));
        } else {
            assert(w =~= v.push(n - 1));
            assert(w.subrange(d as int, w.len() as int) =~= v.subrange(d as int, v.len() as int).push(n - 1));
        }
    }
}

/// After `trim_to_limit`, exactly the newest `max` visible versions stay visible
/// (all of them when there are no more than `max`).
pub proof fn lemma_trim_keeps_newest(h: Seq<HistoryEntry>, h2: Seq<HistoryEntry>, max: nat)
    requires
        h2.len() == h.len(),
        forall|i: int| 0 <= i < h.len() ==> #[trigger] h2[i] == (HistoryEntry {
            deleted: h[i].deleted || visible_count(h.take(i)) < excess(visible_count(h), max),
            ..h[i]
        }),
    ensures
        visible_indices(h2) == visible_indices(h).subrange(
            excess(visible_count(h), max) as int,
            visible_count(h) as int,
        ),
        visible_count(h2) == if visible_count(h) > max { max } else { visible_count(h) },
{
    lemma_trim_prefix(h, h2, excess(visible_count(h), max), h.len() as int);
    assert(h.take(h.len() as int) =~= h);
    assert(h2.take(h.len() as int) =~= h2);
}

/// The entries not marked deleted, oldest first.
pub open spec fn undeleted(h: Seq<HistoryEntry>) -> Seq<HistoryEntry>
    decreases h.len(),
{
    if h.len() == 0 {
        Seq::empty()
    } else if h.last().deleted {
        undeleted(h.drop_last())
    } else {
        undeleted(h.drop_last()).push(h.last())
    }
}

/// The unmarked entries are the entries at the visible positions.
pub proof fn lemma_undeleted_visible(h: Seq<HistoryEntry>)
    ensures
        undeleted(h) == visible_indices(h).map_values(|i: int| h[i]),
    decreases h.len(),
{
    if h.len() > 0 {
        let t = h.drop_last();
        lemma_undeleted_visible(t);
        lemma_visible_indices(t);
        let v = visible_indices(t);
        assert(v.map_values(|i: int| t[i]) =~= v.map_values(|i: int| h[i]));
        if !h.last().deleted {
            assert(v.push(h.len() - 1).map_values(|i: int| h[i]) =~= v.map_values(|i: int| h[i]).push(h.last()));
        }
    }
}

/// How the history stood when the document was last saved or opened: how
/// many versions it had and how many a save keeps.
pub struct HistoryCheckpoint {
    pub initial_history_len: usize,
    pub initial_max_history_length: usize,
}

/// `h` cut back to its first `n` versions, none of them marked.
pub open spec fn reverted(h: Seq<HistoryEntry>, n: nat) -> Seq<HistoryEntry> {
    let k = if h.len() > n { n } else { h.len() };
    Seq::new(k, |i: int| HistoryEntry { deleted: false, ..h[i] })
}

/// Marking entries deleted keeps the versions.
pub proof fn lemma_trimmed_keeps_versions(h: Seq<HistoryEntry>, max: nat)
    ensures
        keeps_versions(h, trimmed(h, max)),
{
}

/// Keeping versions is transitive.
pub proof fn lemma_keeps_versions_trans(h0: Seq<HistoryEntry>, h1: Seq<HistoryEntry>, h2: Seq<HistoryEntry>)
    requires
        keeps_versions(h0, h1),
        keeps_versions(h1, h2),
    ensures
        keeps_versions(h0, h2),
{
    assert forall|i: int| 0 <= i < h0.len() implies #[trigger] h2[i] == (HistoryEntry { deleted: h2[i].deleted, ..h0[i] }) by {
        assert(h2[i] == HistoryEntry { deleted: h2[i].deleted, ..h1[i] });
        assert(h1[i] == HistoryEntry { deleted: h1[i].deleted, ..h0[i] });
    }
}

/// Whatever sequence of history edits was made after a checkpoint of an
/// unmarked history (each of add_snapshot, mark_entry_deleted,
/// mark_all_deleted, trim_to_limit, revert_to_version and
/// set_max_history_length keeps the versions), reverting to the checkpoint
/// gives the history back as it was.
pub proof fn lemma_edits_then_revert(states: Seq<Seq<HistoryEntry>>)
    requires
        states.len() >= 1,
        forall|i: int| 0 <= i < states[0].len() ==> !(#[trigger] states[0][i]).deleted,
        forall|k: int| 0 <= k < states.len() - 1 ==> keeps_versions(#[trigger] states[k], states[k + 1]),
    ensures
        reverted(states.last(), states[0].len()) == states[0],
{
    lemma_keeps_along(states, states.len() - 1);
    lemma_revert_restores(states[0], states.last());
}

/// The first history keeps its versions in every later one.
proof fn lemma_keeps_along(states: Seq<Seq<HistoryEntry>>, k: int)
    requires
        0 <= k < states.len(),
        forall|j: int| 0 <= j < states.len() - 1 ==> keeps_versions(#[trigger] states[j], states[j + 1]),
    ensures
        keeps_versions(states[0], states[k]),
    decreases k,
{
    if k == 0 {
        assert forall|i: int| 0 <= i < states[0].len() implies #[trigger] states[0][i]
            == (HistoryEntry { deleted: states[0][i].deleted, ..states[0][i] }) by {}
    } else {
        lemma_keeps_along(states, k - 1);
        assert(keeps_versions(states[k - 1], states[k]));
        lemma_keeps_versions_trans(states[0], states[k - 1], states[k]);
    }
}

/// True when `h1` begins with the versions of `h0`, whatever their marks.
pub open spec fn keeps_versions(h0: Seq<HistoryEntry>, h1: Seq<HistoryEntry>) -> bool {
    &&& h0.len() <= h1.len()
    &&& forall|i: int| 0 <= i < h0.len() ==> #[trigger] h1[i] == (HistoryEntry { deleted: h1[i].deleted, ..h0[i] })
}

impl DocumentWithHistory {
    /// Drops the versions marked deleted.
    pub fn drop_deleted(&mut self)
        ensures
            final(self).history@ == undeleted(old(self).history@),
            final(self).current_content == old(self).current_content,
            final(self).max_history_length == old(self).max_history_length,
            final(self).autosave == old(self).autosave,
    {
        let mut kept: Vec<HistoryEntry> = Vec::new();
        let mut i: usize = 0;
        let ghost h = self.history@;
        assert(h.take(0) =~= Seq::<HistoryEntry>::empty());
        while i < self.history.len()
            invariant
                self.history@ == h,
                h == old(self).history@,
                i <= h.len(),
                kept@ == undeleted(h.take(i as int)),
            decreases h.len() - i,
        {
            assert(h.take(i + 1).drop_last() =~= h.take(i as int));
            assert(h.take(i + 1).last() == h[i as int]);
            if !self.history[i].deleted {
                kept.push(self.history[i].duplicate());
            }
            i = i + 1;
        }
        assert(h.take(i as int) =~= h);
        self.history = kept;
    }

    /// After the file is written, makes the history in memory what the file
    /// holds: the newest `max_history_length` visible versions, unmarked.
    pub fn commit_saved_history(&mut self)
        ensures
            final(self).history@ == active_entries(old(self).history@, old(self).max_history_length as nat),
            final(self).current_content == old(self).current_content,
            final(self).max_history_length == old(self).max_history_length,
            final(self).autosave == old(self).autosave,
    {
        let ghost h = self.history@;
        let ghost max = self.max_history_length as nat;
        self.trim_to_limit();
        let ghost h2 = self.history@;
        proof {
            lemma_trim_keeps_newest(h, h2, max);
            lemma_visible_indices(h2);
            lemma_undeleted_visible(h2);
            let v = visible_indices(h);
            let d = excess(visible_count(h), max);
            assert(active_indices(h, max) =~= v.subrange(d as int, v.len() as int));
            let w = visible_indices(h2);
            assert forall|k: int| 0 <= k < w.len() implies h2[#[trigger] w[k]] == h[w[k]] by {
                let i = w[k];
                assert(h2[i] == HistoryEntry { deleted: h[i].deleted || visible_count(h.take(i)) < d, ..h[i] });
            }
            assert(w.map_values(|i: int| h2[i]) =~= w.map_values(|i: int| h[i]));
        }
        self.drop_deleted();
    }

    /// Notes how the history stands now, to go back to it later.
    pub fn commit_history_state(&self) -> (res: HistoryCheckpoint)
        ensures
            res.initial_history_len == self.history@.len(),
            res.initial_max_history_length == self.max_history_length,
    {
        HistoryCheckpoint { initial_history_len: self.history.len(), initial_max_history_length: self.max_history_length }
    }

    /// Goes back to `checkpoint`: the history size it had, none of the
    /// versions added since, and no version marked deleted.
    pub fn revert_history_changes(&mut self, checkpoint: &HistoryCheckpoint)
        ensures
            final(self).max_history_length == checkpoint.initial_max_history_length,
            final(self).history@ == reverted(old(self).history@, checkpoint.initial_history_len as nat),
            final(self).current_content == old(self).current_content,
            final(self).autosave == old(self).autosave,
    {
        self.max_history_length = checkpoint.initial_max_history_length;
        if self.history.len() > checkpoint.initial_history_len {
            self.history.truncate(checkpoint.initial_history_len);
        }
        let ghost h = self.history@;
        let mut i: usize = 0;
        while i < self.history.len()
            invariant
                self.history@.len() == h.len(),
                i <= h.len(),
                self.max_history_length == checkpoint.initial_max_history_length,
                self.current_content == old(self).current_content,
                self.autosave == old(self).autosave,
                forall|j: int| 0 <= j < h.len() ==> #[trigger] self.history@[j]
                    == (if j < i { HistoryEntry { deleted: false, ..h[j] } } else { h[j] }),
            decreases h.len() - i,
        {
            self.history[i].deleted = false;
            i = i + 1;
        }
        assert(self.history@ =~= reverted(old(self).history@, checkpoint.initial_history_len as nat));
    }
}

/// Adding a version keeps the versions there were.
pub proof fn lemma_push_keeps_versions(h0: Seq<HistoryEntry>, h1: Seq<HistoryEntry>, e: HistoryEntry)
    requires
        keeps_versions(h0, h1),
    ensures
        keeps_versions(h0, h1.push(e)),
{
    assert forall|i: int| 0 <= i < h0.len() implies #[trigger] h1.push(e)[i]
        == (HistoryEntry { deleted: h1.push(e)[i].deleted, ..h0[i] }) by {
        assert(h1.push(e)[i] == h1[i]);
    }
}

/// Changing marks keeps the versions there were.
pub proof fn lemma_marks_keep_versions(h0: Seq<HistoryEntry>, h1: Seq<HistoryEntry>, h2: Seq<HistoryEntry>)
    requires
        keeps_versions(h0, h1),
        h2.len() == h1.len(),
        forall|i: int| 0 <= i < h1.len() ==> #[trigger] h2[i] == (HistoryEntry { deleted: h2[i].deleted, ..h1[i] }),
    ensures
        keeps_versions(h0, h2),
{
    assert forall|i: int| 0 <= i < h0.len() implies #[trigger] h2[i] == (HistoryEntry { deleted: h2[i].deleted, ..h0[i] }) by {
        assert(h2[i] == HistoryEntry { deleted: h2[i].deleted, ..h1[i] });
        assert(h1[i] == HistoryEntry { deleted: h1[i].deleted, ..h0[i] });
    }
}

/// Reverting undoes every version added and every mark made since a
/// checkpoint taken when no version was marked.
pub proof fn lemma_revert_restores(h0: Seq<HistoryEntry>, h1: Seq<HistoryEntry>)
    requires
        forall|i: int| 0 <= i < h0.len() ==> !(#[trigger] h0[i]).deleted,
        keeps_versions(h0, h1),
    ensures
        reverted(h1, h0.len()) == h0,
{
    assert forall|i: int| 0 <= i < h0.len() implies #[trigger] reverted(h1, h0.len())[i] == h0[i] by {
        assert(h1[i] == HistoryEntry { deleted: h1[i].deleted, ..h0[i] });
    }
    assert(reverted(h1, h0.len()) =~= h0);
}

/// After a save is committed, no version is marked, so a checkpoint taken
/// then and reverted to later gives the committed history back.
pub proof fn lemma_committed_unmarked(h: Seq<HistoryEntry>, max: nat)
    ensures
        forall|i: int| 0 <= i < active_entries(h, max).len() ==> !(#[trigger] active_entries(h, max)[i]).deleted,
        reverted(active_entries(h, max), active_entries(h, max).len()) == active_entries(h, max),
{
    lemma_active_entries_visible(h, max);
    let a = active_entries(h, max);
    assert(keeps_versions(a, a));
    lemma_revert_restores(a, a);
}

impl Default for DocumentWithHistory {
    /// An empty document that keeps up to a thousand versions.
    fn default() -> (res: Self)
        ensures
            res.current_content@ == Seq::<char>::empty(),
            res.history@ == Seq::<HistoryEntry>::empty(),
            res.max_history_length == DEFAULT_MAX_HISTORY,
            res.autosave is None,
    {
        DocumentWithHistory::new_with_limit(DEFAULT_MAX_HISTORY)
    }
}

} // verus!
