//! The decision whether the index file has to be written again.

use crate::digest::{content_digest, digest_of_text};
use crate::error::SummaryError;
use crate::render::{gen_summary_lines, lines_view, render_group};
use crate::text::{chars_of, has_suffix};
use crate::walk::{group_of, malformed_within, walk_dir, EntryModel, FsEntry};
use vstd::prelude::*;

verus! {

/// The index file to write, and the digest to remember for it.
#[derive(Debug, PartialEq, Eq)]
pub struct IndexUpdate {
    /// The path of the index file.
    pub target: String,
    /// The new content of the index file.
    pub content: String,
    /// The digest of the content.
    pub digest: String,
}

/// What an `IndexUpdate` stands for.
pub ghost struct UpdateModel {
    pub target: Seq<char>,
    pub content: Seq<char>,
    pub digest: Seq<char>,
}

impl View for IndexUpdate {
    type V = UpdateModel;

    open spec fn view(&self) -> UpdateModel {
        UpdateModel { target: self.target@, content: self.content@, digest: self.digest@ }
    }
}

/// What became of the index.
#[derive(Debug, PartialEq, Eq)]
pub enum Regeneration {
    /// The content has the remembered digest: nothing is to be written.
    Skipped,
    /// The content changed: the index and the digest are to be written.
    Written(IndexUpdate),
}

impl View for Regeneration {
    type V = Option<UpdateModel>;

    open spec fn view(&self) -> Option<UpdateModel> {
        match self {
            Regeneration::Skipped => None,
            Regeneration::Written(update) => Some(update@),
        }
    }
}

/// The first `n` lines, with a line feed between each two of them.
pub open spec fn joined(lines: Seq<Seq<char>>, n: nat) -> Seq<char>
    decreases n,
{
    if n == 0 || n > lines.len() {
        Seq::empty()
    } else if n == 1 {
        lines[0]
    } else {
        joined(lines, (n - 1) as nat) + "\n"@ + lines[n - 1]
    }
}

/// The directory with a `/` at its end.
pub open spec fn normalized_root(dir: Seq<char>) -> Seq<char> {
    if "/"@.is_suffix_of(dir) {
        dir
    } else {
        dir + "/"@
    }
}

/// The path of the index file of the root `root`.
pub open spec fn index_target(root: Seq<char>) -> Seq<char> {
    root + "/SUMMARY.md"@
}

/// Whether `content` differs from what the remembered digest `old` stands
/// for.
pub open spec fn needs_write(content: Seq<char>, old: Seq<char>) -> bool {
    content_digest(content) != old
}

/// The decision on `content`, for the root `root` and the remembered digest
/// `old`.
pub open spec fn regeneration_of(root: Seq<char>, content: Seq<char>, old: Seq<char>) -> Option<
    UpdateModel,
> {
    if needs_write(content, old) {
        Some(
            UpdateModel {
                target: index_target(root),
                content: content,
                digest: content_digest(content),
            },
        )
    } else {
        None
    }
}

/// The digest that is remembered once the decision has been carried out.
pub open spec fn digest_after(content: Seq<char>, old: Seq<char>) -> Seq<char> {
    if needs_write(content, old) {
        content_digest(content)
    } else {
        old
    }
}

/// The content of the index for the listing `tree` of the root `source_dir`.
pub open spec fn summary_content(source_dir: Seq<char>, tree: EntryModel) -> Seq<char> {
    let lines = render_group(normalized_root(source_dir), group_of(tree));
    joined(lines, lines.len())
}

/// Joins `lines` with line feeds.
pub fn join_lines(lines: &Vec<String>) -> (text: String)
    ensures
        text@ == joined(lines_view(lines@), lines@.len()),
{
    let mut text = String::new();
    let mut i: usize = 0;
    while i < lines.len()
        invariant
            i <= lines.len(),
            text@ == joined(lines_view(lines@), i as nat),
        decreases lines.len() - i,
    {
        if i > 0 {
            text.append("\n");
        }
        text.append(lines[i].as_str());
        assert(text@ =~= joined(lines_view(lines@), (i + 1) as nat));
        i = i + 1;
    }
    text
}

/// Puts a `/` at the end of `source_dir` unless it has one.
pub fn normalize_root(source_dir: &String) -> (root: String)
    ensures
        root@ == normalized_root(source_dir@),
{
    let root = source_dir.clone();
    if has_suffix(&chars_of(source_dir.as_str()), &chars_of("/")) {
        root
    } else {
        root.concat("/")
    }
}

/// Decides on the rendered `lines`: nothing is written if their digest is
/// `old_digest`; else the index file under `root` gets the joined lines, and
/// their digest is to be remembered.
pub fn decide(root: &String, lines: &Vec<String>, old_digest: &String) -> (res: Regeneration)
    ensures
        res@ == regeneration_of(root@, joined(lines_view(lines@), lines@.len()), old_digest@),
{
    let content = join_lines(lines);
    let digest = digest_of_text(content.as_str());
    if digest == *old_digest {
        Regeneration::Skipped
    } else {
        let target = root.clone().concat("/SUMMARY.md");
        Regeneration::Written(IndexUpdate { target, content, digest })
    }
}

/// Generates the index for the listing `tree` of the directory `source_dir`:
/// builds the content tree, renders it, and decides against `old_digest`
/// whether it is to be written.
pub fn gen_summary(source_dir: &String, tree: &FsEntry, old_digest: &String) -> (res: Result<
    Regeneration,
    SummaryError,
>)
    ensures
        match res {
            Ok(outcome) => tree@.is_dir && !malformed_within(tree@) && outcome@ == regeneration_of(
                normalized_root(source_dir@),
                summary_content(source_dir@, tree@),
                old_digest@,
            ),
            Err(e) => if tree@.is_dir {
                e == SummaryError::MalformedEntry && malformed_within(tree@)
            } else {
                e == SummaryError::Io
            },
        },
{
    let root = normalize_root(source_dir);
    match walk_dir(tree) {
        Ok(group) => {
            let lines = gen_summary_lines(root.as_str(), &group);
            Ok(decide(&root, &lines, old_digest))
        },
        Err(e) => Err(e),
    }
}

/// Run twice on an unchanged tree, the generator writes at most once: the
/// first run writes exactly when the remembered digest is not that of the
/// rendered content; after it the remembered digest is that of the content,
/// and the second run writes nothing.
pub proof fn lemma_second_run_skips(source_dir: Seq<char>, tree: EntryModel, old: Seq<char>)
    ensures
        ({
            let root = normalized_root(source_dir);
            let content = summary_content(source_dir, tree);
            let stored = digest_after(content, old);
            &&& regeneration_of(root, content, old) is Some <==> old != content_digest(content)
            &&& stored == content_digest(content)
            &&& regeneration_of(root, content, stored) is None
        }),
{
}

} // verus!
