//! Building the content tree from a listing of the directories.

use crate::error::SummaryError;
use crate::text::{chars_of, find_from, first_index_from, lemma_first_index_from, same_chars};
use crate::tree::{
    file_models, group_models, lemma_group_models_push, FileModel, GroupModel, MdFile, MdGroup,
};
use vstd::prelude::*;

verus! {

/// One entry of a directory listing: a file, or a directory with its own
/// listing, in the order the file system gave.
#[derive(Debug, PartialEq, Eq)]
pub struct FsEntry {
    /// The entry's name within its directory.
    pub file_name: String,
    /// The entry's path.
    pub path: String,
    /// Whether the entry is a directory.
    pub is_dir: bool,
    /// What a directory holds; not read for a file.
    pub entries: Vec<FsEntry>,
}

/// What an `FsEntry` stands for.
pub ghost struct EntryModel {
    pub file_name: Seq<char>,
    pub path: Seq<char>,
    pub is_dir: bool,
    pub entries: Seq<EntryModel>,
}

/// The models of the first `n` entries of `list`.
pub open spec fn entry_models(list: Seq<FsEntry>, n: nat) -> Seq<EntryModel>
    decreases list, n,
{
    if n == 0 || n > list.len() {
        Seq::empty()
    } else {
        entry_models(list, (n - 1) as nat).push(entry_model(list[n - 1]))
    }
}

/// The model of `entry`: its own fields, and the models of what it holds.
pub open spec fn entry_model(entry: FsEntry) -> EntryModel
    decreases entry, 0nat,
{
    EntryModel {
        file_name: entry.file_name@,
        path: entry.path@,
        is_dir: entry.is_dir,
        entries: entry_models(entry.entries@, entry.entries@.len()),
    }
}

impl View for FsEntry {
    type V = EntryModel;

    open spec fn view(&self) -> EntryModel {
        entry_model(*self)
    }
}

/// `entry_models` keeps the length and the order of the list.
pub proof fn lemma_entry_models(list: Seq<FsEntry>, n: nat)
    requires
        n <= list.len(),
    ensures
        entry_models(list, n).len() == n,
        forall|i: int| 0 <= i < n ==> entry_models(list, n)[i] == (#[trigger] list[i])@,
    decreases n,
{
    if n > 0 {
        lemma_entry_models(list, (n - 1) as nat);
    }
}

/// The path of the entry named `name` in the directory at `dir_path`: the
/// two joined by one `/`, which a path that ends in `/` already has.
pub open spec fn child_path(dir_path: Seq<char>, name: Seq<char>) -> Seq<char> {
    if "/"@.is_suffix_of(dir_path) {
        dir_path + name
    } else {
        dir_path + "/"@ + name
    }
}

/// Whether the listing of the directory `dir` is one that a file system
/// gives: at every depth, no two entries of a directory share a name, and
/// the path of each is the directory's path joined with its name.
pub open spec fn well_formed(dir: EntryModel) -> bool
    decreases dir,
{
    &&& forall|i: int, j: int|
        0 <= i < j < dir.entries.len() ==> (#[trigger] dir.entries[i]).file_name != (
        #[trigger] dir.entries[j]).file_name
    &&& forall|i: int|
        0 <= i < dir.entries.len() ==> (#[trigger] dir.entries[i]).path == child_path(
            dir.path,
            dir.entries[i].file_name,
        ) && (dir.entries[i].is_dir ==> well_formed(dir.entries[i]))
}

/// The part of a file's name before its first dot.
pub open spec fn stem_of(name: Seq<char>) -> Seq<char> {
    name.take(first_index_from(name, '.', 0))
}

/// Whether a file's name has no dot at all.
pub open spec fn lacks_extension(name: Seq<char>) -> bool {
    first_index_from(name, '.', 0) == name.len()
}

/// The part of a file's name between its first dot and its second, or the
/// end of the name where there is no second.
pub open spec fn extension_of(name: Seq<char>) -> Seq<char> {
    let dot = first_index_from(name, '.', 0);
    name.subrange(dot + 1, first_index_from(name, '.', dot + 1))
}

/// Whether `ext` is `md`, in upper or lower case.
pub open spec fn is_markdown(ext: Seq<char>) -> bool {
    &&& ext.len() == 2
    &&& (ext[0] == 'm' || ext[0] == 'M')
    &&& (ext[1] == 'd' || ext[1] == 'D')
}

/// Whether a file named `name` is a document of its directory: a Markdown
/// file that is neither the `README.md` nor the index file `SUMMARY.md`.
pub open spec fn is_document(name: Seq<char>) -> bool {
    &&& name != "README.md"@
    &&& name != "SUMMARY.md"@
    &&& !lacks_extension(name)
    &&& is_markdown(extension_of(name))
}

/// Whether one of the first `n` entries is a file named `README.md`.
pub open spec fn holds_marker(entries: Seq<EntryModel>, n: nat) -> bool {
    exists|i: int|
        0 <= i < n && i < entries.len() && !(#[trigger] entries[i]).is_dir && entries[i].file_name
            == "README.md"@
}

/// Whether the directory `entry` has a `README.md` directly in it.
pub open spec fn has_marker(entry: EntryModel) -> bool {
    holds_marker(entry.entries, entry.entries.len())
}

/// The documents among the first `n` entries, in their order.
pub open spec fn documents_of(entries: Seq<EntryModel>, n: nat) -> Seq<FileModel>
    decreases n,
{
    if n == 0 || n > entries.len() {
        Seq::empty()
    } else {
        let before = documents_of(entries, (n - 1) as nat);
        let entry = entries[n - 1];
        if !entry.is_dir && is_document(entry.file_name) {
            before.push(FileModel { name: stem_of(entry.file_name), path: entry.path })
        } else {
            before
        }
    }
}

/// Whether some file anywhere under the directory `entry` has a name without
/// a dot.
pub open spec fn malformed_within(entry: EntryModel) -> bool
    decreases entry, 0nat,
{
    malformed_among(entry.entries, entry.entries.len())
}

/// Whether some file among the first `n` entries, or anywhere under a
/// directory among them, has a name without a dot.
pub open spec fn malformed_among(entries: Seq<EntryModel>, n: nat) -> bool
    decreases entries, n,
{
    if n == 0 || n > entries.len() {
        false
    } else {
        let entry = entries[n - 1];
        malformed_among(entries, (n - 1) as nat) || if entry.is_dir {
            malformed_within(entry)
        } else {
            lacks_extension(entry.file_name)
        }
    }
}

/// The group of the directory `entry`, under the directory's own name: its
/// documents, and of its subdirectories those that have a `README.md`
/// directly in them.
pub open spec fn group_of(entry: EntryModel) -> GroupModel
    decreases entry, 0nat,
{
    GroupModel {
        name: entry.file_name,
        path: entry.path,
        has_readme: has_marker(entry),
        group_list: subgroups_of(entry.entries, entry.entries.len()),
        md_list: documents_of(entry.entries, entry.entries.len()),
    }
}

/// The groups of the directories among the first `n` entries that have a
/// `README.md` directly in them, in their order.
pub open spec fn subgroups_of(entries: Seq<EntryModel>, n: nat) -> Seq<GroupModel>
    decreases entries, n,
{
    if n == 0 || n > entries.len() {
        Seq::empty()
    } else {
        let before = subgroups_of(entries, (n - 1) as nat);
        let entry = entries[n - 1];
        if entry.is_dir && has_marker(entry) {
            before.push(group_of(entry))
        } else {
            before
        }
    }
}

/// A malformed name among the first `n` entries is one among the first `m`,
/// for every `m` from `n` on.
pub proof fn lemma_malformed_among_grows(entries: Seq<EntryModel>, n: nat, m: nat)
    requires
        n <= m <= entries.len(),
        malformed_among(entries, n),
    ensures
        malformed_among(entries, m),
    decreases m,
{
    if n < m {
        lemma_malformed_among_grows(entries, n, (m - 1) as nat);
    }
}

/// What a file adds to its directory, by its name.
#[derive(Debug, PartialEq, Eq)]
pub enum FileKind {
    /// The `README.md`.
    Marker,
    /// A document with this title.
    Document(String),
    /// Nothing: another kind of file, or the index itself.
    Skipped,
    /// The name has no dot.
    Malformed,
}

/// Classifies a file by its name.
pub fn classify(file_name: &str) -> (kind: FileKind)
    ensures
        match kind {
            FileKind::Marker => file_name@ == "README.md"@ && !lacks_extension(file_name@),
            FileKind::Document(title) => is_document(file_name@) && title@ == stem_of(
                file_name@,
            ),
            FileKind::Skipped => file_name@ != "README.md"@ && !lacks_extension(file_name@)
                && !is_document(file_name@),
            FileKind::Malformed => file_name@ != "README.md"@ && lacks_extension(file_name@),
        },
{
    let chars = chars_of(file_name);
    let dot = find_from(&chars, '.', 0);
    proof {
        reveal_strlit("README.md");
        lemma_first_index_from(chars@, '.', 0);
        assert("README.md"@[6] == '.');
    }
    if same_chars(&chars, &chars_of("README.md")) {
        return FileKind::Marker;
    }
    if dot == chars.len() {
        return FileKind::Malformed;
    }
    let end = find_from(&chars, '.', dot + 1);
    let is_md = end - dot == 3 && (chars[dot + 1] == 'm' || chars[dot + 1] == 'M') && (chars[dot
        + 2] == 'd' || chars[dot + 2] == 'D');
    if !is_md || same_chars(&chars, &chars_of("SUMMARY.md")) {
        return FileKind::Skipped;
    }
    FileKind::Document(String::from_str(file_name.substring_char(0, dot)))
}

/// Builds the content tree of the directory `dir`, from its listing. A
/// subdirectory is kept only if a `README.md` stands directly in it; the
/// directory the walk starts from is always kept.
pub fn walk_dir(dir: &FsEntry) -> (res: Result<MdGroup, SummaryError>)
    ensures
        match res {
            Ok(group) => dir@.is_dir && !malformed_within(dir@) && group@ == group_of(dir@),
            Err(e) => if dir@.is_dir {
                e == SummaryError::MalformedEntry && malformed_within(dir@)
            } else {
                e == SummaryError::Io
            },
        },
    decreases dir,
{
    if !dir.is_dir {
        return Err(SummaryError::Io);
    }
    let mut has_readme = false;
    let mut groups: Vec<MdGroup> = Vec::new();
    let mut docs: Vec<MdFile> = Vec::new();
    let ghost entries = dir@.entries;
    proof {
        lemma_entry_models(dir.entries@, dir.entries@.len());
    }
    let mut i: usize = 0;
    while i < dir.entries.len()
        invariant
            dir@.is_dir,
            entries == dir@.entries,
            entries.len() == dir.entries@.len(),
            forall|j: int| 0 <= j < entries.len() ==> entries[j] == (#[trigger] dir.entries@[j])@,
            i <= dir.entries.len(),
            !malformed_among(entries, i as nat),
            has_readme == holds_marker(entries, i as nat),
            group_models(groups@, groups@.len()) == subgroups_of(entries, i as nat),
            file_models(docs@) == documents_of(entries, i as nat),
        decreases dir.entries.len() - i,
    {
        let entry = &dir.entries[i];
        let ghost model = entries[i as int];
        assert(model == entry@);
        if entry.is_dir {
            match walk_dir(entry) {
                Ok(group) => {
                    if group.has_readme {
                        proof {
                            lemma_group_models_push(groups@, group);
                        }
                        groups.push(group);
                    }
                },
                Err(e) => {
                    proof {
                        lemma_malformed_among_grows(entries, (i + 1) as nat, entries.len());
                    }
                    return Err(e);
                },
            }
        } else {
            match classify(entry.file_name.as_str()) {
                FileKind::Marker => {
                    has_readme = true;
                },
                FileKind::Document(title) => {
                    let md = MdFile { name: title, path: entry.path.clone() };
                    assert(file_models(docs@.push(md)) =~= file_models(docs@).push(md@));
                    docs.push(md);
                },
                FileKind::Skipped => {},
                FileKind::Malformed => {
                    proof {
                        lemma_malformed_among_grows(entries, (i + 1) as nat, entries.len());
                    }
                    return Err(SummaryError::MalformedEntry);
                },
            }
        }
        i = i + 1;
    }
    Ok(
        MdGroup {
            name: dir.file_name.clone(),
            path: dir.path.clone(),
            has_readme,
            group_list: groups,
            md_list: docs,
        },
    )
}

} // verus!
