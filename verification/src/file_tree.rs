//! The file tree beside the editor: which entries of a folder it lists, in
//! which order, and how they become rows.

use vstd::prelude::*;
use vstd::multiset::Multiset;
use crate::app_state::{FileTreeEntry, KeyStatus};
use crate::batch::ends_with_sen;
use vstd::string::StringSliceAdditionalSpecFns;
use crate::strings::{chars_of, lowercased, to_lowercase, str_eq, name_le, name_le_exec, lemma_name_le_total, lemma_name_le_trans};

verus! {

broadcast use {vstd::seq_lib::group_to_multiset_ensures, vstd::multiset::group_multiset_axioms};

/// An entry read from a folder: its path, its file name, and whether it is a
/// folder or a file.
pub struct DirChild {
    pub path: String,
    pub name: String,
    pub is_dir: bool,
    pub is_file: bool,
}

/// True when the entries are in the order of their names.
pub open spec fn sorted_by_name(s: Seq<DirChild>) -> bool {
    forall|i: int, j: int| 0 <= i < j < s.len() ==> name_le(#[trigger] s[i].name@, #[trigger] s[j].name@)
}

/// The entries ordered by name.
pub fn sort_by_name(v: Vec<DirChild>) -> (res: Vec<DirChild>)
    ensures
        res@.to_multiset() == v@.to_multiset(),
        sorted_by_name(res@),
{
    let ghost all = v@.to_multiset();
    let mut rest = v;
    let mut res: Vec<DirChild> = Vec::new();
    assert(res@.to_multiset() =~= Multiset::<DirChild>::empty());
    while rest.len() > 0
        invariant
            res@.to_multiset().add(rest@.to_multiset()) == all,
            sorted_by_name(res@),
        decreases rest@.len(),
    {
        let ghost before = rest@;
        let x = rest.pop().unwrap();
        proof {
            assert(rest@.push(x) =~= before);
        }
        let mut p: usize = 0;
        while p < res.len() && name_le_exec(res[p].name.as_str(), x.name.as_str())
            invariant
                p <= res@.len(),
                forall|k: int| 0 <= k < p ==> name_le(#[trigger] res@[k].name@, x.name@),
            decreases res@.len() - p,
        {
            p = p + 1;
        }
        let ghost old_res = res@;
        proof {
            assert forall|k: int| p <= k < old_res.len() implies name_le(x.name@, #[trigger] old_res[k].name@) by {
                lemma_name_le_total(old_res[p as int].name@, x.name@);
                if k > p {
                    lemma_name_le_trans(x.name@, old_res[p as int].name@, old_res[k].name@);
                }
            }
        }
        res.insert(p, x);
        proof {
            assert forall|i: int, j: int| 0 <= i < j < res@.len() implies name_le(#[trigger] res@[i].name@, #[trigger] res@[j].name@) by {
                if i < p && j < p {
                } else if i < p && j == p {
                } else if i < p {
                    assert(res@[j] == old_res[j - 1]);
                    lemma_name_le_trans(old_res[i].name@, x.name@, old_res[j - 1].name@);
                } else if i == p {
                    assert(res@[j] == old_res[j - 1]);
                } else {
                    assert(res@[i] == old_res[i - 1]);
                    assert(res@[j] == old_res[j - 1]);
                }
            }
            assert(res@.to_multiset() == old_res.to_multiset().insert(x));
            assert(before.to_multiset() == rest@.to_multiset().insert(x));
            assert(res@.to_multiset().add(rest@.to_multiset()) =~= all);
        }
    }
    proof {
        assert(rest@.to_multiset() =~= Multiset::<DirChild>::empty());
        assert(res@.to_multiset() =~= all);
    }
    res
}

/// True when `name` has the extension "sen": it ends in ".sen" after at
/// least one other character (`Path::extension`).
pub open spec fn is_sen_name(name: Seq<char>) -> bool {
    name.len() > 4 && name.skip(name.len() - 4) == ".sen"@
}

/// True when `c` is listed as a folder; folders are listed only when
/// `show_folders`.
pub open spec fn listed_folder(c: DirChild, show_folders: bool) -> bool {
    c.is_dir && show_folders
}

/// True when `c` is listed as a document: a file with the extension "sen".
pub open spec fn listed_file(c: DirChild, show_folders: bool) -> bool {
    !listed_folder(c, show_folders) && c.is_file && is_sen_name(c.name@)
}

/// True when `folders` and `files` are the folders and documents listed of
/// `children`, each ordered by name.
pub open spec fn listing_parts(children: Seq<DirChild>, show_folders: bool, folders: Seq<DirChild>, files: Seq<DirChild>) -> bool {
    &&& sorted_by_name(folders)
    &&& sorted_by_name(files)
    &&& folders.to_multiset() == children.filter(|c: DirChild| listed_folder(c, show_folders)).to_multiset()
    &&& files.to_multiset() == children.filter(|c: DirChild| listed_file(c, show_folders)).to_multiset()
}

/// Whether `name` ends with ".sen".
fn ends_in_sen(name: &str) -> (res: bool)
    ensures
        res == ends_with_sen(name@),
{
    let cs = chars_of(name);
    let ext = chars_of(".sen");
    proof { reveal_strlit(".sen"); }
    let n = cs.len();
    if n < 4 {
        return false;
    }
    let mut k: usize = 0;
    while k < 4
        invariant
            cs@ == name@,
            ext@ == ".sen"@,
            ext@.len() == 4,
            n == cs@.len(),
            n >= 4,
            k <= 4,
            forall|m: int| 0 <= m < k ==> cs@[n - 4 + m] == ext@[m],
        decreases 4 - k,
    {
        if cs[n - 4 + k] != ext[k] {
            assert(name@.skip(n - 4)[k as int] != ".sen"@[k as int]);
            return false;
        }
        k = k + 1;
    }
    assert(name@.skip(n - 4) =~= ".sen"@);
    true
}

/// Whether `name` has the extension "sen".
fn sen_name(name: &str) -> (res: bool)
    ensures
        res == is_sen_name(name@),
{
    name.unicode_len() > 4 && ends_in_sen(name)
}

/// Whether a row of the file tree is drawn. With `hide_undecryptable` a
/// file whose lower-cased name ends with ".sen" is left out unless the
/// loaded keyfile decrypts it; a file not checked yet counts as unknown.
pub fn tree_row_shown(is_dir: bool, name: &str, status: Option<KeyStatus>, hide_undecryptable: bool) -> (res: bool)
    ensures
        res == (is_dir || !hide_undecryptable || !ends_with_sen(lowercased(name@))
            || status == Some(KeyStatus::Decryptable)),
{
    if is_dir || !hide_undecryptable {
        return true;
    }
    let lower = to_lowercase(name);
    if !ends_in_sen(lower.as_str()) {
        return true;
    }
    match status {
        Some(KeyStatus::Decryptable) => true,
        _ => false,
    }
}

/// The folders and the documents of `children`, each ordered by name.
pub fn split_listing(children: Vec<DirChild>, show_folders: bool) -> (res: (Vec<DirChild>, Vec<DirChild>))
    ensures
        listing_parts(children@, show_folders, res.0@, res.1@),
{
    let ghost all = children@;
    let ghost pf = |c: DirChild| listed_folder(c, show_folders);
    let ghost pd = |c: DirChild| listed_file(c, show_folders);
    let mut rest = children;
    let mut folders: Vec<DirChild> = Vec::new();
    let mut files: Vec<DirChild> = Vec::new();
    proof {
        reveal(Seq::filter);
        assert(all.take(0) =~= Seq::<DirChild>::empty());
    }
    while rest.len() > 0
        invariant
            rest@.len() <= all.len(),
            all.take(all.len() - rest@.len()) + rest@ == all,
            folders@ == all.take(all.len() - rest@.len()).filter(pf),
            files@ == all.take(all.len() - rest@.len()).filter(pd),
            pf == (|c: DirChild| listed_folder(c, show_folders)),
            pd == (|c: DirChild| listed_file(c, show_folders)),
        decreases rest@.len(),
    {
        let ghost i = all.len() - rest@.len();
        let ghost before = rest@;
        let c = rest.remove(0);
        proof {
            reveal(Seq::filter);
            assert(before[0] == all[i]);
            assert(all.take(i + 1).drop_last() =~= all.take(i));
            assert(all.take(i + 1).last() == c);
            assert(all.take(i + 1) + rest@ =~= all);
        }
        if c.is_dir && show_folders {
            folders.push(c);
        } else if c.is_file && sen_name(c.name.as_str()) {
            files.push(c);
        }
    }
    proof {
        assert(all.take(all.len() as int) =~= all);
    }
    let sorted_folders = sort_by_name(folders);
    let sorted_files = sort_by_name(files);
    (sorted_folders, sorted_files)
}

/// The row for `c`.
pub open spec fn entry_of(c: DirChild, is_dir: bool, is_expanded: bool, depth: usize) -> FileTreeEntry {
    FileTreeEntry { path: c.path, is_dir, is_expanded, depth }
}

/// The rows of the flat view: the parent folder first (when there is one
/// and folders are shown), then the folders, then the documents.
pub open spec fn flat_rows(parent: Option<String>, show_subfolders: bool, folders: Seq<DirChild>, files: Seq<DirChild>) -> Seq<FileTreeEntry> {
    let head = match parent {
        Some(p) => if show_subfolders {
            seq![FileTreeEntry { path: p, is_dir: true, is_expanded: false, depth: 0 }]
        } else {
            Seq::empty()
        },
        None => Seq::empty(),
    };
    head + folders.map_values(|c: DirChild| entry_of(c, true, false, 0)) + files.map_values(|c: DirChild| entry_of(c, false, false, 0))
}

/// The rows of `entries`, each a folder or not, unfolded or not, at `depth`.
fn rows_of(entries: Vec<DirChild>, is_dir: bool, expanded: &[String], mark_expanded: bool, depth: usize)
    -> (res: Vec<FileTreeEntry>)
    ensures
        res@ == entries@.map_values(|c: DirChild| entry_of(c, is_dir, mark_expanded && path_expanded(expanded@, c.path@), depth)),
{
    let ghost all = entries@;
    let mut rest = entries;
    let mut res: Vec<FileTreeEntry> = Vec::new();
    while rest.len() > 0
        invariant
            rest@.len() <= all.len(),
            all.take(all.len() - rest@.len()) + rest@ == all,
            res@ == all.take(all.len() - rest@.len()).map_values(
                |c: DirChild| entry_of(c, is_dir, mark_expanded && path_expanded(expanded@, c.path@), depth)),
        decreases rest@.len(),
    {
        let ghost i = all.len() - rest@.len();
        let ghost before = rest@;
        let c = rest.remove(0);
        proof {
            assert(before[0] == all[i]);
            assert(all.take(i + 1) + rest@ =~= all);
        }
        let open = mark_expanded && is_expanded_path(expanded, c.path.as_str());
        res.push(FileTreeEntry { path: c.path, is_dir, is_expanded: open, depth });
        assert(res@ =~= all.take(i + 1).map_values(
            |c: DirChild| entry_of(c, is_dir, mark_expanded && path_expanded(expanded@, c.path@), depth)));
    }
    assert(all.take(all.len() as int) =~= all);
    res
}

/// True when `path` is one of the unfolded folders.
pub open spec fn path_expanded(expanded: Seq<String>, path: Seq<char>) -> bool {
    exists|j: int| 0 <= j < expanded.len() && (#[trigger] expanded[j])@ == path
}

/// Whether `path` is one of the unfolded folders.
fn is_expanded_path(expanded: &[String], path: &str) -> (res: bool)
    ensures
        res == path_expanded(expanded@, path@),
{
    let mut j: usize = 0;
    while j < expanded.len()
        invariant
            j <= expanded@.len(),
            forall|k: int| 0 <= k < j ==> (#[trigger] expanded@[k])@ != path@,
        decreases expanded@.len() - j,
    {
        if str_eq(expanded[j].as_str(), path) {
            return true;
        }
        j = j + 1;
    }
    false
}

/// The rows of the flat view of a folder whose entries are `children` and
/// whose parent is `parent`, if it has one.
pub fn flat_listing(children: Vec<DirChild>, parent: Option<String>, show_subfolders: bool) -> (res: Vec<FileTreeEntry>)
    ensures
        exists|folders: Seq<DirChild>, files: Seq<DirChild>|
            listing_parts(children@, show_subfolders, folders, files)
            && res@ == flat_rows(parent, show_subfolders, folders, files),
{
    let ghost kids = children@;
    let (folders, files) = split_listing(children, show_subfolders);
    let ghost fo = folders@;
    let ghost fi = files@;
    let mut res: Vec<FileTreeEntry> = Vec::new();
    match parent {
        Some(p) => {
            if show_subfolders {
                res.push(FileTreeEntry { path: p, is_dir: true, is_expanded: false, depth: 0 });
            }
        },
        None => {},
    }
    let ghost head = res@;
    let empty: Vec<String> = Vec::new();
    let mut folder_rows = rows_of(folders, true, empty.as_slice(), false, 0);
    let mut file_rows = rows_of(files, false, empty.as_slice(), false, 0);
    res.append(&mut folder_rows);
    res.append(&mut file_rows);
    proof {
        assert(fo.map_values(|c: DirChild| entry_of(c, true, false && path_expanded(empty@, c.path@), 0))
            =~= fo.map_values(|c: DirChild| entry_of(c, true, false, 0)));
        assert(fi.map_values(|c: DirChild| entry_of(c, false, false && path_expanded(empty@, c.path@), 0))
            =~= fi.map_values(|c: DirChild| entry_of(c, false, false, 0)));
        assert(res@ =~= flat_rows(parent, show_subfolders, fo, fi));
        assert(listing_parts(kids, show_subfolders, fo, fi));
    }
    res
}

/// One level of the tree view at `depth`: the rows of the folders, each
/// unfolded when its path is in `expanded`, and the rows of the documents.
/// The rows of an unfolded folder's own entries go right after its row.
pub fn tree_level(children: Vec<DirChild>, depth: usize, expanded: &[String])
    -> (res: (Vec<FileTreeEntry>, Vec<FileTreeEntry>))
    ensures
        exists|folders: Seq<DirChild>, files: Seq<DirChild>|
            listing_parts(children@, true, folders, files)
            && res.0@ == folders.map_values(|c: DirChild| entry_of(c, true, path_expanded(expanded@, c.path@), depth))
            && res.1@ == files.map_values(|c: DirChild| entry_of(c, false, false, depth)),
{
    let ghost kids = children@;
    let (folders, files) = split_listing(children, true);
    let ghost fo = folders@;
    let ghost fi = files@;
    let folder_rows = rows_of(folders, true, expanded, true, depth);
    let file_rows = rows_of(files, false, expanded, false, depth);
    proof {
        assert(folder_rows@ =~= fo.map_values(|c: DirChild| entry_of(c, true, path_expanded(expanded@, c.path@), depth)));
        assert(file_rows@ =~= fi.map_values(|c: DirChild| entry_of(c, false, false, depth)));
        assert(listing_parts(kids, true, fo, fi));
    }
    (folder_rows, file_rows)
}

} // verus!
