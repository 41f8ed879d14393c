//! The content tree: groups (directories) that own documents and subgroups.

use vstd::prelude::*;

verus! {

/// A single Markdown document.
#[derive(Debug, PartialEq, Eq)]
pub struct MdFile {
    /// The title: the file's name up to its first dot.
    pub name: String,
    /// The file's path.
    pub path: String,
}

/// A directory of the content tree.
#[derive(Debug, PartialEq, Eq)]
pub struct MdGroup {
    /// The title: the directory's base name.
    pub name: String,
    /// The directory's path.
    pub path: String,
    /// Whether a `README.md` stands directly in the directory.
    pub has_readme: bool,
    /// The subdirectories that were kept, in the order they were listed.
    pub group_list: Vec<MdGroup>,
    /// The documents of the directory, in the order they were listed.
    pub md_list: Vec<MdFile>,
}

/// What an `MdFile` stands for.
pub ghost struct FileModel {
    pub name: Seq<char>,
    pub path: Seq<char>,
}

/// What an `MdGroup` stands for.
pub ghost struct GroupModel {
    pub name: Seq<char>,
    pub path: Seq<char>,
    pub has_readme: bool,
    pub group_list: Seq<GroupModel>,
    pub md_list: Seq<FileModel>,
}

impl View for MdFile {
    type V = FileModel;

    open spec fn view(&self) -> FileModel {
        FileModel { name: self.name@, path: self.path@ }
    }
}

/// The models of a list of documents.
pub open spec fn file_models(list: Seq<MdFile>) -> Seq<FileModel> {
    list.map_values(|file: MdFile| file@)
}

/// The models of the first `n` groups of `list`.
pub open spec fn group_models(list: Seq<MdGroup>, n: nat) -> Seq<GroupModel>
    decreases list, n,
{
    if n == 0 || n > list.len() {
        Seq::empty()
    } else {
        group_models(list, (n - 1) as nat).push(group_model(list[n - 1]))
    }
}

/// The model of `group`: its own fields, and the models of what it holds.
pub open spec fn group_model(group: MdGroup) -> GroupModel
    decreases group, 0nat,
{
    GroupModel {
        name: group.name@,
        path: group.path@,
        has_readme: group.has_readme,
        group_list: group_models(group.group_list@, group.group_list@.len()),
        md_list: file_models(group.md_list@),
    }
}

impl View for MdGroup {
    type V = GroupModel;

    open spec fn view(&self) -> GroupModel {
        group_model(*self)
    }
}

/// `group_models` keeps the length and the order of the list.
pub proof fn lemma_group_models(list: Seq<MdGroup>, n: nat)
    requires
        n <= list.len(),
    ensures
        group_models(list, n).len() == n,
        forall|i: int| 0 <= i < n ==> group_models(list, n)[i] == (#[trigger] list[i])@,
    decreases n,
{
    if n > 0 {
        lemma_group_models(list, (n - 1) as nat);
    }
}

/// The models of a list with one more group are the models of the list with
/// one more model.
pub proof fn lemma_group_models_push(list: Seq<MdGroup>, group: MdGroup)
    ensures
        group_models(list.push(group), list.len() + 1) == group_models(list, list.len()).push(
            group@,
        ),
{
    let longer = list.push(group);
    lemma_group_models(list, list.len());
    lemma_group_models(longer, longer.len());
    let a = group_models(longer, longer.len());
    let b = group_models(list, list.len()).push(group@);
    assert forall|i: int| 0 <= i < a.len() implies a[i] == b[i] by {
        assert(a[i] == longer[i]@);
        if i < list.len() {
            assert(longer[i] == list[i]);
            assert(b[i] == list[i]@);
        }
    }
    assert(a =~= b);
}

/// The model of a group holds the models of its parts, one for one.
pub proof fn lemma_group_view(group: MdGroup)
    ensures
        group@.name == group.name@,
        group@.path == group.path@,
        group@.has_readme == group.has_readme,
        group@.group_list.len() == group.group_list@.len(),
        group@.md_list.len() == group.md_list@.len(),
        forall|i: int|
            0 <= i < group.group_list@.len() ==> group@.group_list[i] == (
            #[trigger] group.group_list@[i])@,
        forall|i: int|
            0 <= i < group.md_list@.len() ==> group@.md_list[i] == (#[trigger] group.md_list@[i])@,
{
    lemma_group_models(group.group_list@, group.group_list@.len());
}

} // verus!
