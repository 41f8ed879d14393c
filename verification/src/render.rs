//! Rendering of a content tree as the lines of the index file.

use crate::text::{chars_of, has_prefix, has_suffix, same_chars, separator_count, separators};
use crate::tree::{lemma_group_view, FileModel, GroupModel, MdFile, MdGroup};
use vstd::prelude::*;

verus! {

/// `path` as seen from `root`: without the prefix `root` where it has it,
/// unchanged where it has not.
pub open spec fn relative_path(root: Seq<char>, path: Seq<char>) -> Seq<char> {
    if root.is_prefix_of(path) {
        path.skip(root.len() as int)
    } else {
        path
    }
}

/// Four spaces for each level of depth.
pub open spec fn indentation(depth: nat) -> Seq<char>
    decreases depth,
{
    if depth == 0 {
        Seq::empty()
    } else {
        indentation((depth - 1) as nat) + "    "@
    }
}

/// The title a group is shown under: the root, whose relative path `rel`
/// is empty, and any directory named `src` are the welcome page; another
/// group goes by its name.
pub open spec fn display_title(rel: Seq<char>, name: Seq<char>) -> Seq<char> {
    if rel.len() == 0 || name == "src"@ {
        "Welcome"@
    } else {
        name
    }
}

/// The link to a group's `README.md`, for a group at relative path `rel`.
pub open spec fn group_link(rel: Seq<char>, title: Seq<char>) -> Seq<char> {
    if rel.len() == 0 {
        indentation(separators(rel)) + "* ["@ + title + "](README.md)"@
    } else {
        indentation(separators(rel)) + "* ["@ + title + "]("@ + rel + "/README.md)"@
    }
}

/// The lines a group opens with: the heading if it is the root, its link,
/// and after an unindented link a blank line, followed by a rule unless the
/// group is the welcome page.
pub open spec fn group_header(rel: Seq<char>, title: Seq<char>) -> Seq<Seq<char>> {
    let heading = if rel.len() == 0 {
        seq!["# Summary"@]
    } else {
        Seq::empty()
    };
    let separator = if separators(rel) != 0 {
        Seq::empty()
    } else if title == "Welcome"@ {
        seq![Seq::<char>::empty()]
    } else {
        seq![Seq::<char>::empty(), "----"@]
    };
    heading + seq![group_link(rel, title)] + separator
}

/// Whether a document at relative path `rel` gets a line: the index file and
/// a `README.md` get none.
pub open spec fn document_listed(rel: Seq<char>) -> bool {
    rel != "SUMMARY.md"@ && !"README.md"@.is_suffix_of(rel)
}

/// The link to a document at relative path `rel`.
pub open spec fn document_link(rel: Seq<char>, title: Seq<char>) -> Seq<char> {
    indentation(separators(rel)) + "* ["@ + title + "]("@ + rel + ")"@
}

/// The lines of the first `n` documents of `docs`.
pub open spec fn document_lines(root: Seq<char>, docs: Seq<FileModel>, n: nat) -> Seq<Seq<char>>
    decreases n,
{
    if n == 0 || n > docs.len() {
        Seq::empty()
    } else {
        let before = document_lines(root, docs, (n - 1) as nat);
        let rel = relative_path(root, docs[n - 1].path);
        if document_listed(rel) {
            before.push(document_link(rel, docs[n - 1].name))
        } else {
            before
        }
    }
}

/// The lines of a group: its header, its documents, then its subgroups.
pub open spec fn render_group(root: Seq<char>, group: GroupModel) -> Seq<Seq<char>>
    decreases group, 0nat,
{
    let rel = relative_path(root, group.path);
    group_header(rel, display_title(rel, group.name)) + document_lines(
        root,
        group.md_list,
        group.md_list.len(),
    ) + subgroup_lines(root, group.group_list, group.group_list.len())
}

/// The lines of the first `n` groups of `groups`, one group after the other.
pub open spec fn subgroup_lines(root: Seq<char>, groups: Seq<GroupModel>, n: nat) -> Seq<
    Seq<char>,
>
    decreases groups, n,
{
    if n == 0 || n > groups.len() {
        Seq::empty()
    } else {
        subgroup_lines(root, groups, (n - 1) as nat) + render_group(root, groups[n - 1])
    }
}

/// The texts of a list of lines.
pub open spec fn lines_view(lines: Seq<String>) -> Seq<Seq<char>> {
    lines.map_values(|line: String| line@)
}

/// Cuts the prefix `root` off `path`, if it is there.
pub fn relative<'a>(root: &Vec<char>, path: &'a str) -> (rel: &'a str)
    ensures
        rel@ == relative_path(root@, path@),
{
    let chars = chars_of(path);
    if has_prefix(&chars, root) {
        path.substring_char(root.len(), chars.len())
    } else {
        path
    }
}

/// The indentation of a line at `depth`.
pub fn indent(depth: usize) -> (spaces: String)
    ensures
        spaces@ == indentation(depth as nat),
{
    let mut spaces = String::new();
    let mut i: usize = 0;
    while i < depth
        invariant
            i <= depth,
            spaces@ == indentation(i as nat),
        decreases depth - i,
    {
        spaces.append("    ");
        i = i + 1;
    }
    spaces
}

/// Appends the opening lines of a group to `out`.
fn push_group_header(rel: &str, name: &str, out: &mut Vec<String>)
    ensures
        lines_view(final(out)@) == lines_view(old(out)@) + group_header(rel@, display_title(rel@, name@)),
{
    let rel_chars = chars_of(rel);
    let name_chars = chars_of(name);
    let title: &str = if rel_chars.len() == 0 || same_chars(&name_chars, &chars_of("src")) {
        "Welcome"
    } else {
        name
    };
    let depth = separator_count(&rel_chars);
    let mut link = indent(depth);
    link.append("* [");
    link.append(title);
    if rel_chars.len() == 0 {
        out.push(String::from_str("# Summary"));
        link.append("](README.md)");
    } else {
        link.append("](");
        link.append(rel);
        link.append("/README.md)");
    }
    out.push(link);
    if depth == 0 {
        out.push(String::new());
        if !same_chars(&chars_of(title), &chars_of("Welcome")) {
            out.push(String::from_str("----"));
        }
    }
    assert(lines_view(out@) =~= lines_view(old(out)@) + group_header(
        rel@,
        display_title(rel@, name@),
    ));
}

/// Appends the line of one document to `out`, if it gets one.
fn push_document(root: &Vec<char>, md: &MdFile, out: &mut Vec<String>)
    ensures
        lines_view(final(out)@) == if document_listed(relative_path(root@, md@.path)) {
            lines_view(old(out)@).push(
                document_link(relative_path(root@, md@.path), md@.name),
            )
        } else {
            lines_view(old(out)@)
        },
{
    let rel = relative(root, md.path.as_str());
    let rel_chars = chars_of(rel);
    if same_chars(&rel_chars, &chars_of("SUMMARY.md")) {
        return;
    }
    if has_suffix(&rel_chars, &chars_of("README.md")) {
        return;
    }
    let mut link = indent(separator_count(&rel_chars));
    link.append("* [");
    link.append(md.name.as_str());
    link.append("](");
    link.append(rel);
    link.append(")");
    out.push(link);
    assert(lines_view(out@) =~= lines_view(old(out)@).push(
        document_link(relative_path(root@, md@.path), md@.name),
    ));
}

/// Appends the lines of `group` and of all that it holds to `out`.
fn render_into(root: &Vec<char>, group: &MdGroup, out: &mut Vec<String>)
    ensures
        lines_view(final(out)@) == lines_view(old(out)@) + render_group(root@, group@),
    decreases group,
{
    proof {
        lemma_group_view(*group);
    }
    let rel = relative(root, group.path.as_str());
    push_group_header(rel, group.name.as_str(), out);
    let ghost header = group_header(rel@, display_title(rel@, group@.name));
    let mut i: usize = 0;
    while i < group.md_list.len()
        invariant
            i <= group.md_list.len(),
            lines_view(out@) == lines_view(old(out)@) + header + document_lines(
                root@,
                group@.md_list,
                i as nat,
            ),
        decreases group.md_list.len() - i,
    {
        push_document(root, &group.md_list[i], out);
        i = i + 1;
        assert(lines_view(out@) =~= lines_view(old(out)@) + header + document_lines(
            root@,
            group@.md_list,
            i as nat,
        ));
    }
    let ghost documents = document_lines(root@, group@.md_list, group@.md_list.len());
    let mut k: usize = 0;
    while k < group.group_list.len()
        invariant
            k <= group.group_list.len(),
            lines_view(out@) == lines_view(old(out)@) + header + documents + subgroup_lines(
                root@,
                group@.group_list,
                k as nat,
            ),
        decreases group.group_list.len() - k,
    {
        let ghost sub = group.group_list@[k as int]@;
        proof {
            lemma_group_view(*group);
        }
        render_into(root, &group.group_list[k], out);
        assert(subgroup_lines(root@, group@.group_list, (k + 1) as nat) == subgroup_lines(
            root@,
            group@.group_list,
            k as nat,
        ) + render_group(root@, sub));
        k = k + 1;
        assert(lines_view(out@) =~= lines_view(old(out)@) + header + documents + subgroup_lines(
            root@,
            group@.group_list,
            k as nat,
        ));
    }
    assert(lines_view(out@) =~= lines_view(old(out)@) + render_group(root@, group@));
}

/// Renders the tree under `group` as the lines of the index file, with every
/// path taken relative to `root_dir`.
pub fn gen_summary_lines(root_dir: &str, group: &MdGroup) -> (lines: Vec<String>)
    ensures
        lines_view(lines@) == render_group(root_dir@, group@),
{
    let root = chars_of(root_dir);
    let mut lines: Vec<String> = Vec::new();
    render_into(&root, group, &mut lines);
    assert(lines_view(lines@) =~= render_group(root_dir@, group@));
    lines
}

} // verus!
