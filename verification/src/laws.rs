//! What holds of the content tree and of its rendering, whatever the input.

use crate::render::{
    display_title, document_lines, document_link, document_listed, group_header, group_link,
    indentation, relative_path, render_group, subgroup_lines,
};
use crate::gate::{digest_after, normalized_root, regeneration_of, summary_content};
use crate::text::{
    lemma_first_index_from, lemma_separators_concat, segment_count, separators,
};
use crate::tree::{FileModel, GroupModel, MdGroup};
use crate::walk::{
    child_path, documents_of, extension_of, group_of, has_marker, holds_marker, is_document,
    is_markdown, lacks_extension, malformed_among, malformed_within, stem_of, subgroups_of,
    well_formed, EntryModel,
};
use vstd::prelude::*;

verus! {

/// Whether the directory `dir`, or a directory anywhere below it, has a
/// `README.md` directly in it.
pub open spec fn marker_below(dir: EntryModel) -> bool
    decreases dir,
{
    has_marker(dir) || exists|i: int|
        0 <= i < dir.entries.len() && (#[trigger] dir.entries[i]).is_dir && marker_below(
            dir.entries[i],
        )
}

/// Whether every directory below `dir` that has a `README.md` somewhere
/// under it also has one directly in it.
pub open spec fn marker_closed(dir: EntryModel) -> bool
    decreases dir,
{
    forall|i: int|
        0 <= i < dir.entries.len() && (#[trigger] dir.entries[i]).is_dir ==> (marker_below(
            dir.entries[i],
        ) ==> has_marker(dir.entries[i])) && marker_closed(dir.entries[i])
}

/// Whether every group below `group` has a `README.md` directly in it.
pub open spec fn all_marked(group: GroupModel) -> bool
    decreases group,
{
    forall|k: int|
        0 <= k < group.group_list.len() ==> (#[trigger] group.group_list[k]).has_readme
            && all_marked(group.group_list[k])
}

/// Whether the entry is a directory that is kept as a group of its parent.
pub open spec fn is_kept(entry: EntryModel) -> bool {
    entry.is_dir && has_marker(entry)
}

/// Whether the entry is a file that is kept as a document of its directory.
pub open spec fn is_kept_document(entry: EntryModel) -> bool {
    !entry.is_dir && is_document(entry.file_name)
}

/// The document that is made of a file.
pub open spec fn document_of(entry: EntryModel) -> FileModel {
    FileModel { name: stem_of(entry.file_name), path: entry.path }
}

/// Whether `group` is the group of a kept directory among the first `n`
/// entries.
pub open spec fn made_of_kept_directory(entries: Seq<EntryModel>, n: nat, group: GroupModel) -> bool {
    exists|i: int|
        0 <= i < n && i < entries.len() && is_kept(#[trigger] entries[i]) && group == group_of(
            entries[i])
}

/// Whether `doc` is the document of a kept file among the first `n` entries.
pub open spec fn made_of_kept_file(
    entries: Seq<EntryModel>,
    n: nat,
    doc: FileModel,
) -> bool {
    exists|i: int|
        0 <= i < n && i < entries.len() && is_kept_document(#[trigger] entries[i]) && doc
            == document_of(entries[i])
}

/// The groups made of the first `n` entries are the groups of exactly the
/// kept directories among them.
pub proof fn lemma_subgroups_of(entries: Seq<EntryModel>, n: nat)
    requires
        n <= entries.len(),
    ensures
        forall|i: int|
            0 <= i < n && is_kept(#[trigger] entries[i]) ==> subgroups_of(entries, n).contains(
                group_of(entries[i]),
            ),
        forall|k: int|
            0 <= k < subgroups_of(entries, n).len() ==> made_of_kept_directory(
                entries,
                n,
                #[trigger] subgroups_of(entries, n)[k],
            ),
    decreases n,
{
    if n > 0 {
        let before = subgroups_of(entries, (n - 1) as nat);
        let now = subgroups_of(entries, n);
        let last = entries[n - 1];
        lemma_subgroups_of(entries, (n - 1) as nat);
        assert forall|i: int| 0 <= i < n && is_kept(#[trigger] entries[i]) implies now.contains(
            group_of(entries[i]),
        ) by {
            if i < n - 1 {
                let x = group_of(entries[i]);
                assert(before.contains(x));
                let j = choose|j: int| 0 <= j < before.len() && before[j] == x;
                assert(now[j] == x);
            } else {
                assert(now[before.len() as int] == group_of(last));
            }
        }
        assert forall|k: int| 0 <= k < now.len() implies made_of_kept_directory(
            entries,
            n,
            #[trigger] now[k],
        ) by {
            if k < before.len() {
                assert(made_of_kept_directory(entries, (n - 1) as nat, before[k]));
                let i = choose|i: int|
                    0 <= i < n - 1 && is_kept(#[trigger] entries[i]) && before[k] == group_of(
                        entries[i]);
                assert(is_kept(entries[i]) && now[k] == group_of(entries[i]));
            } else {
                assert(is_kept(entries[n - 1]) && now[k] == group_of(entries[n - 1]));
            }
        }
    }
}

/// The documents made of the first `n` entries are the documents of exactly
/// the kept files among them.
pub proof fn lemma_documents_of(entries: Seq<EntryModel>, n: nat)
    requires
        n <= entries.len(),
    ensures
        forall|i: int|
            0 <= i < n && is_kept_document(#[trigger] entries[i]) ==> documents_of(
                entries,
                n).contains(document_of(entries[i])),
        forall|k: int|
            0 <= k < documents_of(entries, n).len() ==> made_of_kept_file(
                entries,
                n,
                #[trigger] documents_of(entries, n)[k],
            ),
    decreases n,
{
    if n > 0 {
        let before = documents_of(entries, (n - 1) as nat);
        let now = documents_of(entries, n);
        let last = entries[n - 1];
        lemma_documents_of(entries, (n - 1) as nat);
        assert forall|i: int|
            0 <= i < n && is_kept_document(#[trigger] entries[i]) implies now.contains(
            document_of(entries[i]),
        ) by {
            if i < n - 1 {
                let x = document_of(entries[i]);
                assert(before.contains(x));
                let j = choose|j: int| 0 <= j < before.len() && before[j] == x;
                assert(now[j] == x);
            } else {
                assert(now[before.len() as int] == document_of(last));
            }
        }
        assert forall|k: int| 0 <= k < now.len() implies made_of_kept_file(
            entries,
            n,
            #[trigger] now[k],
        ) by {
            if k < before.len() {
                assert(made_of_kept_file(entries, (n - 1) as nat, before[k]));
                let i = choose|i: int|
                    0 <= i < n - 1 && is_kept_document(#[trigger] entries[i]) && before[k]
                        == document_of(entries[i]);
                assert(is_kept_document(entries[i]) && now[k] == document_of(entries[i]));
            } else {
                assert(is_kept_document(entries[n - 1]) && now[k] == document_of(
                    entries[n - 1],
                ));
            }
        }
    }
}

/// Marker-gated inclusion, one level at a time: the groups of a directory's
/// group are the groups of exactly those of its subdirectories that have a
/// `README.md` directly in them. The group of the directory itself is built
/// whether it has one or not, as the root's is.
pub proof fn lemma_marker_gated_inclusion(dir: EntryModel)
    ensures
        forall|i: int|
            0 <= i < dir.entries.len() && is_kept(#[trigger] dir.entries[i]) ==> group_of(
                dir).group_list.contains(group_of(dir.entries[i])),
        forall|k: int|
            0 <= k < group_of(dir).group_list.len() ==> made_of_kept_directory(
                dir.entries,
                dir.entries.len(),
                #[trigger] group_of(dir).group_list[k],
            ),
{
    lemma_subgroups_of(dir.entries, dir.entries.len());
    assert(group_of(dir).group_list == subgroups_of(dir.entries, dir.entries.len()));
}

/// No group without a `README.md` survives: every group below the group of
/// a directory has one directly in it, at every depth.
pub proof fn lemma_kept_groups_are_marked(dir: EntryModel)
    ensures
        all_marked(group_of(dir)),
    decreases dir,
{
    let group = group_of(dir);
    lemma_subgroups_of(dir.entries, dir.entries.len());
    assert(group.group_list == subgroups_of(dir.entries, dir.entries.len()));
    assert forall|k: int| 0 <= k < group.group_list.len() implies (
    #[trigger] group.group_list[k]).has_readme && all_marked(group.group_list[k]) by {
        assert(made_of_kept_directory(dir.entries, dir.entries.len(), group.group_list[k]));
        let i = choose|i: int|
            0 <= i < dir.entries.len() && is_kept(#[trigger] dir.entries[i]) && group.group_list[k]
                == group_of(dir.entries[i]);
        lemma_kept_groups_are_marked(dir.entries[i]);
    }
}

/// The directory reached from `dir` by taking, step by step, the entry with
/// the next index of `route`; none where the route leaves the listing or
/// meets a file.
pub open spec fn directory_at(dir: EntryModel, route: Seq<int>) -> Option<EntryModel>
    decreases route.len(),
{
    if route.len() == 0 {
        Some(dir)
    } else if 0 <= route[0] < dir.entries.len() && dir.entries[route[0]].is_dir {
        directory_at(dir.entries[route[0]], route.drop_first())
    } else {
        None
    }
}

/// Whether every directory along `route`, from the first below `dir` to the
/// last, has a `README.md` directly in it.
pub open spec fn kept_along(dir: EntryModel, route: Seq<int>) -> bool
    decreases route.len(),
{
    route.len() == 0 || (0 <= route[0] < dir.entries.len() && is_kept(dir.entries[route[0]])
        && kept_along(dir.entries[route[0]], route.drop_first()))
}

/// Whether `group` is `tree` or a group at any depth below it.
pub open spec fn group_within(tree: GroupModel, group: GroupModel) -> bool
    decreases tree,
{
    tree == group || exists|k: int|
        0 <= k < tree.group_list.len() && group_within(#[trigger] tree.group_list[k], group)
}

/// Whether `group` is the group of a directory below `dir` that is reached
/// through directories with a `README.md` only.
pub open spec fn made_along_kept_route(dir: EntryModel, group: GroupModel) -> bool {
    exists|route: Seq<int>|
        route.len() > 0 && #[trigger] kept_along(dir, route) && directory_at(dir, route) is Some
            && group == group_of(directory_at(dir, route).unwrap())
}

/// A directory that is reached through directories with a `README.md` only,
/// and has one itself, has its group in the tree.
pub proof fn lemma_kept_directory_appears(dir: EntryModel, route: Seq<int>)
    requires
        route.len() > 0,
        kept_along(dir, route),
    ensures
        directory_at(dir, route) is Some,
        group_within(group_of(dir), group_of(directory_at(dir, route).unwrap())),
    decreases route.len(),
{
    let entry = dir.entries[route[0]];
    let rest = route.drop_first();
    let tree = group_of(dir);
    lemma_marker_gated_inclusion(dir);
    assert(tree.group_list.contains(group_of(entry)));
    let k = choose|k: int| 0 <= k < tree.group_list.len() && tree.group_list[k] == group_of(
        entry);
    if rest.len() > 0 {
        lemma_kept_directory_appears(entry, rest);
    } else {
        assert(directory_at(entry, rest) == Some(entry));
    }
    assert(directory_at(dir, route) == directory_at(entry, rest));
    assert(group_within(tree.group_list[k], group_of(directory_at(dir, route).unwrap())));
}

/// Every group of the tree but the root's is the group of a directory that
/// is reached through directories with a `README.md` only, and has one
/// itself: nothing else is in the tree.
pub proof fn lemma_group_comes_from_kept_directory(
    dir: EntryModel,
    group: GroupModel,
)
    requires
        group_within(group_of(dir), group),
        group != group_of(dir),
    ensures
        made_along_kept_route(dir, group),
    decreases dir,
{
    let tree = group_of(dir);
    let k = choose|k: int|
        0 <= k < tree.group_list.len() && group_within(#[trigger] tree.group_list[k], group);
    lemma_marker_gated_inclusion(dir);
    assert(made_of_kept_directory(dir.entries, dir.entries.len(), tree.group_list[k]));
    let i = choose|i: int|
        0 <= i < dir.entries.len() && is_kept(#[trigger] dir.entries[i]) && tree.group_list[k]
            == group_of(dir.entries[i]);
    let entry = dir.entries[i];
    if group == group_of(entry) {
        let route = seq![i];
        assert(route.drop_first() =~= Seq::<int>::empty());
        assert(kept_along(entry, route.drop_first()));
        assert(kept_along(dir, route));
        assert(directory_at(dir, route) == Some(entry));
    } else {
        lemma_group_comes_from_kept_directory(entry, group);
        let rest = choose|rest: Seq<int>|
            rest.len() > 0 && #[trigger] kept_along(entry, rest) && directory_at(entry, rest) is Some
                && group == group_of(directory_at(entry, rest).unwrap());
        let route = seq![i] + rest;
        assert(route.drop_first() =~= rest);
        assert(kept_along(dir, route));
        assert(directory_at(dir, route) == directory_at(entry, rest));
    }
}

/// A `README.md` at or below a directory is one below every directory above
/// it.
pub proof fn lemma_marker_below_ancestor(dir: EntryModel, route: Seq<int>)
    requires
        directory_at(dir, route) is Some,
        marker_below(directory_at(dir, route).unwrap()),
    ensures
        marker_below(dir),
    decreases route.len(),
{
    if route.len() > 0 {
        let entry = dir.entries[route[0]];
        lemma_marker_below_ancestor(entry, route.drop_first());
        assert(entry.is_dir && marker_below(entry));
    }
}

/// In a tree where every directory with a `README.md` somewhere under it has
/// one directly in it, a directory below the root is reached through
/// directories with a `README.md` only, and has one itself, exactly if it, or
/// a directory anywhere below it, has one.
pub proof fn lemma_kept_iff_marker_below(dir: EntryModel, route: Seq<int>)
    requires
        marker_closed(dir),
        route.len() > 0,
        directory_at(dir, route) is Some,
    ensures
        kept_along(dir, route) <==> marker_below(directory_at(dir, route).unwrap()),
    decreases route.len(),
{
    let entry = dir.entries[route[0]];
    let rest = route.drop_first();
    let target = directory_at(dir, route).unwrap();
    assert(entry.is_dir && marker_closed(entry));
    if rest.len() > 0 {
        lemma_kept_iff_marker_below(entry, rest);
        if marker_below(target) {
            lemma_marker_below_ancestor(entry, rest);
        }
    }
}

/// Marker-gated inclusion, at every depth: in a tree where every directory
/// with a `README.md` somewhere under it has one directly in it, the group of
/// a directory below the root is in the tree if the directory, or one
/// anywhere below it, has a `README.md`; and every group of the tree but the
/// root's is the group of such a directory.
pub proof fn lemma_group_appears_iff_marker_below(
    tree: EntryModel,
    route: Seq<int>,
    group: GroupModel,
)
    requires
        marker_closed(tree),
    ensures
        route.len() > 0 && directory_at(tree, route) is Some && marker_below(
            directory_at(tree, route).unwrap(),
        ) ==> group_within(group_of(tree), group_of(directory_at(tree, route).unwrap())),
        group_within(group_of(tree), group) && group != group_of(tree) ==> exists|
            way: Seq<int>,
        |
            way.len() > 0 && #[trigger] kept_along(tree, way) && directory_at(tree, way) is Some
                && marker_below(directory_at(tree, way).unwrap()) && group == group_of(
                directory_at(tree, way).unwrap()),
{
    if route.len() > 0 && directory_at(tree, route) is Some && marker_below(
        directory_at(tree, route).unwrap(),
    ) {
        lemma_kept_iff_marker_below(tree, route);
        lemma_kept_directory_appears(tree, route);
    }
    if group_within(group_of(tree), group) && group != group_of(tree) {
        lemma_group_comes_from_kept_directory(tree, group);
        let way = choose|way: Seq<int>|
            way.len() > 0 && #[trigger] kept_along(tree, way) && directory_at(tree, way) is Some
                && group == group_of(directory_at(tree, way).unwrap());
        lemma_kept_iff_marker_below(tree, way);
    }
}

/// Extension filtering: the documents of a directory's group are the
/// documents of exactly those of its files that are Markdown by their
/// extension, in upper or lower case, and are neither the `README.md` nor
/// the index file `SUMMARY.md`.
pub proof fn lemma_extension_filtering(dir: EntryModel)
    ensures
        forall|i: int|
            0 <= i < dir.entries.len() && is_kept_document(#[trigger] dir.entries[i])
                ==> group_of(dir).md_list.contains(document_of(dir.entries[i])),
        forall|k: int|
            0 <= k < group_of(dir).md_list.len() ==> made_of_kept_file(
                dir.entries,
                dir.entries.len(),
                #[trigger] group_of(dir).md_list[k],
            ),
        forall|i: int|
            0 <= i < dir.entries.len() && is_kept_document(#[trigger] dir.entries[i])
                ==> is_markdown(extension_of(dir.entries[i].file_name))
                && dir.entries[i].file_name != "README.md"@ && dir.entries[i].file_name
                != "SUMMARY.md"@,
{
    lemma_documents_of(dir.entries, dir.entries.len());
}

/// Whether, at every depth below `group`, a subgroup's path is its parent's
/// joined with the subgroup's name, and a document's path begins with the
/// path of the group that holds it.
pub open spec fn locations_nested(group: GroupModel) -> bool
    decreases group,
{
    &&& forall|k: int|
        0 <= k < group.md_list.len() ==> group.path.is_prefix_of((#[trigger] group.md_list[k]).path)
    &&& forall|k: int|
        0 <= k < group.group_list.len() ==> {
            &&& (#[trigger] group.group_list[k]).path == child_path(
                group.path,
                group.group_list[k].name,
            )
            &&& group.path.is_prefix_of(group.group_list[k].path)
            &&& locations_nested(group.group_list[k])
        }
}

/// The path of an entry begins with the path of its directory.
pub proof fn lemma_child_path_prefix(dir_path: Seq<char>, name: Seq<char>)
    ensures
        dir_path.is_prefix_of(child_path(dir_path, name)),
{
    let path = child_path(dir_path, name);
    assert(path.subrange(0, dir_path.len() as int) =~= dir_path);
}

/// Locations stay consistent: the tree built from a well-formed listing has
/// every group's path under its parent's, as the parent's path joined with
/// the group's name, and every document's path under its group's.
pub proof fn lemma_locations_nested(dir: EntryModel)
    requires
        well_formed(dir),
    ensures
        group_of(dir).path == dir.path,
        locations_nested(group_of(dir)),
    decreases dir,
{
    let group = group_of(dir);
    lemma_subgroups_of(dir.entries, dir.entries.len());
    lemma_documents_of(dir.entries, dir.entries.len());
    assert(group.group_list == subgroups_of(dir.entries, dir.entries.len()));
    assert(group.md_list == documents_of(dir.entries, dir.entries.len()));
    assert forall|k: int| 0 <= k < group.md_list.len() implies group.path.is_prefix_of(
        (#[trigger] group.md_list[k]).path,
    ) by {
        assert(made_of_kept_file(dir.entries, dir.entries.len(), group.md_list[k]));
        let i = choose|i: int|
            0 <= i < dir.entries.len() && is_kept_document(#[trigger] dir.entries[i])
                && group.md_list[k] == document_of(dir.entries[i]);
        lemma_child_path_prefix(dir.path, dir.entries[i].file_name);
    }
    assert forall|k: int| 0 <= k < group.group_list.len() implies {
        &&& (#[trigger] group.group_list[k]).path == child_path(
            group.path,
            group.group_list[k].name,
        )
        &&& group.path.is_prefix_of(group.group_list[k].path)
        &&& locations_nested(group.group_list[k])
    } by {
        assert(made_of_kept_directory(dir.entries, dir.entries.len(), group.group_list[k]));
        let i = choose|i: int|
            0 <= i < dir.entries.len() && is_kept(#[trigger] dir.entries[i]) && group.group_list[k]
                == group_of(dir.entries[i]);
        lemma_child_path_prefix(dir.path, dir.entries[i].file_name);
        lemma_locations_nested(dir.entries[i]);
    }
}

/// Rendering is repeatable: two trees that stand for the same groups and
/// documents render as the same lines.
pub proof fn lemma_rendering_is_repeatable(root: Seq<char>, first: MdGroup, second: MdGroup)
    requires
        first@ == second@,
    ensures
        render_group(root, first@) == render_group(root, second@),
{
}

/// The indentation of depth `depth` is `4 * depth` spaces.
pub proof fn lemma_indentation(depth: nat)
    ensures
        indentation(depth).len() == 4 * depth,
        forall|i: int| 0 <= i < 4 * depth ==> indentation(depth)[i] == ' ',
    decreases depth,
{
    reveal_strlit("    ");
    if depth > 0 {
        lemma_indentation((depth - 1) as nat);
    }
}

/// Indentation scaling: the line of a document begins with four spaces for
/// each segment of its relative path but one, and then the bullet; the link
/// of a group whose relative path has a single segment is not indented.
pub proof fn lemma_indentation_scaling(rel: Seq<char>, title: Seq<char>)
    ensures
        indentation((segment_count(rel) - 1) as nat).len() == 4 * (segment_count(rel) - 1),
        indentation((segment_count(rel) - 1) as nat).is_prefix_of(document_link(rel, title)),
        document_link(rel, title)[4 * (segment_count(rel) - 1)] == '*',
        indentation((segment_count(rel) - 1) as nat).is_prefix_of(group_link(rel, title)),
        group_link(rel, title)[4 * (segment_count(rel) - 1)] == '*',
        segment_count(rel) == 1 ==> group_link(rel, title)[0] == '*',
{
    let depth = separators(rel);
    lemma_indentation(depth);
    reveal_strlit("* [");
    let spaces = indentation(depth);
    let doc = document_link(rel, title);
    assert(doc.subrange(0, spaces.len() as int) =~= spaces);
    let link = group_link(rel, title);
    assert(link.subrange(0, spaces.len() as int) =~= spaces);
}

/// One directory deeper, four spaces more: a path that lies one directory
/// below another has one separator more, and its line is indented by four
/// more spaces.
pub proof fn lemma_one_directory_deeper(dir_name: Seq<char>, rel: Seq<char>)
    requires
        separators(dir_name) == 0,
    ensures
        separators(dir_name + "/"@ + rel) == separators(rel) + 1,
        indentation(separators(dir_name + "/"@ + rel)) == indentation(separators(rel)) + "    "@,
        indentation(separators(dir_name + "/"@ + rel)).len() == indentation(separators(rel)).len()
            + 4,
{
    reveal_strlit("/");
    reveal_strlit("    ");
    lemma_separators_concat(dir_name + "/"@, rel);
    lemma_separators_concat(dir_name, "/"@);
    assert("/"@.drop_last() =~= Seq::<char>::empty());
    assert(separators("/"@.drop_last()) == 0);
    assert(separators("/"@) == 1);
}

/// Two names that give the same path in one directory are the same name.
pub proof fn lemma_child_path_injective(dir_path: Seq<char>, a: Seq<char>, b: Seq<char>)
    requires
        child_path(dir_path, a) == child_path(dir_path, b),
    ensures
        a == b,
{
    let stem = if "/"@.is_suffix_of(dir_path) {
        dir_path
    } else {
        dir_path + "/"@
    };
    assert(child_path(dir_path, a) =~= stem + a);
    assert(child_path(dir_path, b) =~= stem + b);
    assert((stem + a).skip(stem.len() as int) =~= a);
    assert((stem + b).skip(stem.len() as int) =~= b);
}

/// Extension filtering, by path: in a well-formed listing, a file that is a
/// document has a document with its stem and its path, and every document
/// with the path of a file is that file's; so a file that is no document
/// (another extension, the `README.md`, the `SUMMARY.md`) has none with its
/// path, and one that is a document has exactly one, since no two documents
/// have the same path.
pub proof fn lemma_documents_by_path(dir: EntryModel, i: int)
    requires
        well_formed(dir),
        0 <= i < dir.entries.len(),
        !dir.entries[i].is_dir,
    ensures
        is_document(dir.entries[i].file_name) ==> group_of(dir).md_list.contains(
            FileModel { name: stem_of(dir.entries[i].file_name), path: dir.entries[i].path },
        ),
        forall|k: int|
            0 <= k < group_of(dir).md_list.len() && (#[trigger] group_of(dir).md_list[k]).path
                == dir.entries[i].path ==> is_document(dir.entries[i].file_name) && group_of(
                dir,
            ).md_list[k] == document_of(dir.entries[i]),
        forall|a: int, b: int|
            0 <= a < b < group_of(dir).md_list.len() ==> (#[trigger] group_of(dir).md_list[a]).path
                != (#[trigger] group_of(dir).md_list[b]).path,
{
    let docs = group_of(dir).md_list;
    lemma_documents_of(dir.entries, dir.entries.len());
    lemma_document_paths_distinct(dir, dir.entries.len());
    assert(docs == documents_of(dir.entries, dir.entries.len()));
    assert forall|k: int|
        0 <= k < docs.len() && (#[trigger] docs[k]).path == dir.entries[i].path implies is_document(
        dir.entries[i].file_name,
    ) && docs[k] == document_of(dir.entries[i]) by {
        assert(made_of_kept_file(dir.entries, dir.entries.len(), docs[k]));
        let j = choose|j: int|
            0 <= j < dir.entries.len() && is_kept_document(#[trigger] dir.entries[j]) && docs[k]
                == document_of(dir.entries[j]);
        lemma_child_path_injective(dir.path, dir.entries[i].file_name, dir.entries[j].file_name);
        if i < j {
            assert(dir.entries[i].file_name != dir.entries[j].file_name);
        }
        if j < i {
            assert(dir.entries[j].file_name != dir.entries[i].file_name);
        }
    }
}

/// In a well-formed listing no two of the documents made of the first `n`
/// entries have the same path.
pub proof fn lemma_document_paths_distinct(dir: EntryModel, n: nat)
    requires
        well_formed(dir),
        n <= dir.entries.len(),
    ensures
        forall|a: int, b: int|
            0 <= a < b < documents_of(dir.entries, n).len() ==> (#[trigger] documents_of(
                dir.entries,
                n,
            )[a]).path != (#[trigger] documents_of(dir.entries, n)[b]).path,
    decreases n,
{
    if n > 0 {
        let entries = dir.entries;
        let before = documents_of(entries, (n - 1) as nat);
        let now = documents_of(entries, n);
        lemma_document_paths_distinct(dir, (n - 1) as nat);
        lemma_documents_of(entries, (n - 1) as nat);
        assert forall|a: int, b: int| 0 <= a < b < now.len() implies (#[trigger] now[a]).path != (
        #[trigger] now[b]).path by {
            if b < before.len() {
                assert(now[a] == before[a] && now[b] == before[b]);
            } else {
                assert(made_of_kept_file(entries, (n - 1) as nat, before[a]));
                let j = choose|j: int|
                    0 <= j < n - 1 && is_kept_document(#[trigger] entries[j]) && before[a]
                        == document_of(entries[j]);
                assert(entries[j].file_name != entries[n - 1].file_name);
                if now[a].path == now[b].path {
                    lemma_child_path_injective(
                        dir.path,
                        entries[j].file_name,
                        entries[n - 1].file_name,
                    );
                }
            }
        }
    }
}

/// In a well-formed listing no two of the groups made of the first `n`
/// entries have the same path.
pub proof fn lemma_group_paths_distinct(dir: EntryModel, n: nat)
    requires
        well_formed(dir),
        n <= dir.entries.len(),
    ensures
        forall|a: int, b: int|
            0 <= a < b < subgroups_of(dir.entries, n).len() ==> (#[trigger] subgroups_of(
                dir.entries,
                n,
            )[a]).path != (#[trigger] subgroups_of(dir.entries, n)[b]).path,
    decreases n,
{
    if n > 0 {
        let entries = dir.entries;
        let before = subgroups_of(entries, (n - 1) as nat);
        let now = subgroups_of(entries, n);
        lemma_group_paths_distinct(dir, (n - 1) as nat);
        lemma_subgroups_of(entries, (n - 1) as nat);
        assert forall|a: int, b: int| 0 <= a < b < now.len() implies (#[trigger] now[a]).path != (
        #[trigger] now[b]).path by {
            if b < before.len() {
                assert(now[a] == before[a] && now[b] == before[b]);
            } else {
                assert(made_of_kept_directory(entries, (n - 1) as nat, before[a]));
                let j = choose|j: int|
                    0 <= j < n - 1 && is_kept(#[trigger] entries[j]) && before[a] == group_of(
                        entries[j],
                    );
                assert(entries[j].file_name != entries[n - 1].file_name);
                assert(now[a] == before[a]);
                assert(now[b] == group_of(entries[n - 1]));
                assert(group_of(entries[j]).path == entries[j].path);
                assert(group_of(entries[n - 1]).path == entries[n - 1].path);
                if now[a].path == now[b].path {
                    lemma_child_path_injective(
                        dir.path,
                        entries[j].file_name,
                        entries[n - 1].file_name,
                    );
                }
            }
        }
    }
}

/// Marker-gated inclusion, by path: in a well-formed listing, a subdirectory
/// with a `README.md` directly in it has its group among the groups, and
/// every group with the path of a subdirectory is that subdirectory's; so a
/// subdirectory without one has no group with its path, and one with a
/// `README.md` has exactly one, since no two groups have the same path.
pub proof fn lemma_groups_by_path(dir: EntryModel, i: int)
    requires
        well_formed(dir),
        0 <= i < dir.entries.len(),
        dir.entries[i].is_dir,
    ensures
        has_marker(dir.entries[i]) ==> group_of(dir).group_list.contains(group_of(dir.entries[i])),
        forall|k: int|
            0 <= k < group_of(dir).group_list.len() && (#[trigger] group_of(dir).group_list[k]).path
                == dir.entries[i].path ==> has_marker(dir.entries[i]) && group_of(
                dir,
            ).group_list[k] == group_of(dir.entries[i]),
        forall|a: int, b: int|
            0 <= a < b < group_of(dir).group_list.len() ==> (#[trigger] group_of(
                dir,
            ).group_list[a]).path != (#[trigger] group_of(dir).group_list[b]).path,
{
    let groups = group_of(dir).group_list;
    lemma_subgroups_of(dir.entries, dir.entries.len());
    lemma_group_paths_distinct(dir, dir.entries.len());
    assert(groups == subgroups_of(dir.entries, dir.entries.len()));
    assert forall|k: int|
        0 <= k < groups.len() && (#[trigger] groups[k]).path
            == dir.entries[i].path implies has_marker(dir.entries[i]) && groups[k] == group_of(
        dir.entries[i],
    ) by {
        assert(made_of_kept_directory(dir.entries, dir.entries.len(), groups[k]));
        let j = choose|j: int|
            0 <= j < dir.entries.len() && is_kept(#[trigger] dir.entries[j]) && groups[k]
                == group_of(dir.entries[j]);
        lemma_child_path_injective(dir.path, dir.entries[i].file_name, dir.entries[j].file_name);
        if i < j {
            assert(dir.entries[i].file_name != dir.entries[j].file_name);
        }
        if j < i {
            assert(dir.entries[j].file_name != dir.entries[i].file_name);
        }
    }
}

/// Whether no line is the heading.
pub open spec fn heading_free(lines: Seq<Seq<char>>) -> bool {
    forall|i: int| 0 <= i < lines.len() ==> #[trigger] lines[i] != "# Summary"@
}

/// Whether `group`, and every group at any depth below it, has a path that
/// is not empty as seen from `root`.
pub open spec fn below_root(root: Seq<char>, group: GroupModel) -> bool
    decreases group,
{
    &&& relative_path(root, group.path).len() > 0
    &&& forall|k: int|
        0 <= k < group.group_list.len() ==> below_root(root, #[trigger] group.group_list[k])
}

/// No link is the heading.
pub proof fn lemma_link_is_no_heading(rel: Seq<char>, title: Seq<char>)
    ensures
        group_link(rel, title) != "# Summary"@,
        document_link(rel, title) != "# Summary"@,
{
    reveal_strlit("# Summary");
    reveal_strlit("* [");
    lemma_indentation_scaling(rel, title);
    let at = 4 * (segment_count(rel) - 1);
    assert(forall|j: int| 0 <= j < 9 ==> "# Summary"@[j] != '*');
    assert(indentation((segment_count(rel) - 1) as nat).len() == at);
    assert(group_link(rel, title).len() > at);
    assert(document_link(rel, title).len() > at);
}

/// The lines of documents hold no heading.
pub proof fn lemma_document_lines_heading_free(root: Seq<char>, docs: Seq<FileModel>, n: nat)
    ensures
        heading_free(document_lines(root, docs, n)),
    decreases n,
{
    if n > 0 && n <= docs.len() {
        lemma_document_lines_heading_free(root, docs, (n - 1) as nat);
        lemma_link_is_no_heading(relative_path(root, docs[n - 1].path), docs[n - 1].name);
    }
}

/// The lines of a group below the root hold no heading.
pub proof fn lemma_group_lines_heading_free(root: Seq<char>, group: GroupModel)
    requires
        below_root(root, group),
    ensures
        heading_free(render_group(root, group)),
    decreases group, 0nat,
{
    let rel = relative_path(root, group.path);
    let title = display_title(rel, group.name);
    reveal_strlit("# Summary");
    reveal_strlit("----");
    lemma_link_is_no_heading(rel, title);
    lemma_document_lines_heading_free(root, group.md_list, group.md_list.len());
    lemma_subgroup_lines_heading_free(root, group.group_list, group.group_list.len());
    let header = group_header(rel, title);
    let link = group_link(rel, title);
    if separators(rel) != 0 {
        assert(header =~= seq![link]);
    } else if title == "Welcome"@ {
        assert(header =~= seq![link, Seq::<char>::empty()]);
    } else {
        assert(header =~= seq![link, Seq::<char>::empty(), "----"@]);
    }
    assert forall|i: int| 0 <= i < header.len() implies #[trigger] header[i] != "# Summary"@ by {
        assert("# Summary"@.len() == 9);
        assert("----"@.len() == 4);
        if i == 0 {
            assert(header[i] == link);
        } else if i == 1 {
            assert(header[i].len() == 0);
        } else {
            assert(header[i] == "----"@);
        }
    }
}

/// The lines of groups below the root hold no heading.
pub proof fn lemma_subgroup_lines_heading_free(root: Seq<char>, groups: Seq<GroupModel>, n: nat)
    requires
        forall|k: int| 0 <= k < groups.len() ==> below_root(root, #[trigger] groups[k]),
    ensures
        heading_free(subgroup_lines(root, groups, n)),
    decreases groups, n,
{
    if n > 0 && n <= groups.len() {
        lemma_subgroup_lines_heading_free(root, groups, (n - 1) as nat);
        lemma_group_lines_heading_free(root, groups[n - 1]);
    }
}

/// The heading stands once: the lines of the root group, whose groups all
/// lie below the root, begin with the heading, and no later line is the
/// heading.
pub proof fn lemma_heading_once(root: Seq<char>, group: GroupModel)
    requires
        relative_path(root, group.path).len() == 0,
        forall|k: int|
            0 <= k < group.group_list.len() ==> below_root(root, #[trigger] group.group_list[k]),
    ensures
        render_group(root, group).len() >= 3,
        render_group(root, group)[0] == "# Summary"@,
        forall|i: int|
            1 <= i < render_group(root, group).len() ==> #[trigger] render_group(root, group)[i]
                != "# Summary"@,
{
    let rel = relative_path(root, group.path);
    let title = display_title(rel, group.name);
    reveal_strlit("# Summary");
    lemma_link_is_no_heading(rel, title);
    lemma_document_lines_heading_free(root, group.md_list, group.md_list.len());
    lemma_subgroup_lines_heading_free(root, group.group_list, group.group_list.len());
    let header = group_header(rel, title);
    assert(separators(rel) == 0);
    assert(header =~= seq!["# Summary"@, group_link(rel, title), Seq::<char>::empty()]);
    let lines = render_group(root, group);
    let documents = document_lines(root, group.md_list, group.md_list.len());
    let below = subgroup_lines(root, group.group_list, group.group_list.len());
    assert(lines == header + documents + below);
    assert forall|i: int| 1 <= i < lines.len() implies #[trigger] lines[i] != "# Summary"@ by {
        if i < 3 {
            assert(lines[i] == header[i]);
        } else if i < 3 + documents.len() {
            assert(lines[i] == documents[i - 3]);
        } else {
            assert(lines[i] == below[i - 3 - documents.len()]);
        }
    }
}

/// Whether the entry is a file that the walk passes over: it has an
/// extension, and is neither a document nor the `README.md`.
pub open spec fn is_skipped_file(entry: EntryModel) -> bool {
    &&& !entry.is_dir
    &&& entry.file_name != "README.md"@
    &&& !lacks_extension(entry.file_name)
    &&& !is_document(entry.file_name)
}

/// The listing of `dir` with `file` put in before the entry at `at`.
pub open spec fn with_entry(dir: EntryModel, at: int, file: EntryModel) -> EntryModel {
    EntryModel {
        file_name: dir.file_name,
        path: dir.path,
        is_dir: dir.is_dir,
        entries: dir.entries.insert(at, file),
    }
}

/// A skipped file put into a listing adds no document.
pub proof fn lemma_documents_with_skipped(
    entries: Seq<EntryModel>,
    at: int,
    file: EntryModel,
    n: nat,
)
    requires
        0 <= at <= entries.len(),
        is_skipped_file(file),
        n <= entries.len() + 1,
    ensures
        documents_of(entries.insert(at, file), n) == if n <= at {
            documents_of(entries, n)
        } else {
            documents_of(entries, (n - 1) as nat)
        },
    decreases n,
{
    let longer = entries.insert(at, file);
    if n > 0 {
        lemma_documents_with_skipped(entries, at, file, (n - 1) as nat);
        if n - 1 < at {
            assert(longer[n - 1] == entries[n - 1]);
        } else if n - 1 == at {
            assert(longer[n - 1] == file);
        } else {
            assert(longer[n - 1] == entries[n - 2]);
        }
    }
}

/// A skipped file put into a listing adds no group.
pub proof fn lemma_subgroups_with_skipped(
    entries: Seq<EntryModel>,
    at: int,
    file: EntryModel,
    n: nat,
)
    requires
        0 <= at <= entries.len(),
        is_skipped_file(file),
        n <= entries.len() + 1,
    ensures
        subgroups_of(entries.insert(at, file), n) == if n <= at {
            subgroups_of(entries, n)
        } else {
            subgroups_of(entries, (n - 1) as nat)
        },
    decreases n,
{
    let longer = entries.insert(at, file);
    if n > 0 {
        lemma_subgroups_with_skipped(entries, at, file, (n - 1) as nat);
        if n - 1 < at {
            assert(longer[n - 1] == entries[n - 1]);
        } else if n - 1 == at {
            assert(longer[n - 1] == file);
        } else {
            assert(longer[n - 1] == entries[n - 2]);
        }
    }
}

/// A skipped file put into a listing makes no name malformed.
pub proof fn lemma_malformed_with_skipped(
    entries: Seq<EntryModel>,
    at: int,
    file: EntryModel,
    n: nat,
)
    requires
        0 <= at <= entries.len(),
        is_skipped_file(file),
        n <= entries.len() + 1,
    ensures
        malformed_among(entries.insert(at, file), n) == if n <= at {
            malformed_among(entries, n)
        } else {
            malformed_among(entries, (n - 1) as nat)
        },
    decreases n,
{
    let longer = entries.insert(at, file);
    if n > 0 {
        lemma_malformed_with_skipped(entries, at, file, (n - 1) as nat);
        if n - 1 < at {
            assert(longer[n - 1] == entries[n - 1]);
        } else if n - 1 == at {
            assert(longer[n - 1] == file);
        } else {
            assert(longer[n - 1] == entries[n - 2]);
        }
    }
}

/// A skipped file changes nothing: the listing with such a file put in at
/// any place gives the same group, and fails exactly if the listing without
/// it does.
pub proof fn lemma_skipped_file_changes_nothing(dir: EntryModel, at: int, file: EntryModel)
    requires
        0 <= at <= dir.entries.len(),
        is_skipped_file(file),
    ensures
        group_of(with_entry(dir, at, file)) == group_of(dir),
        malformed_within(with_entry(dir, at, file)) == malformed_within(dir),
{
    let entries = dir.entries;
    let longer = entries.insert(at, file);
    lemma_documents_with_skipped(entries, at, file, longer.len());
    lemma_subgroups_with_skipped(entries, at, file, longer.len());
    lemma_malformed_with_skipped(entries, at, file, longer.len());
    if holds_marker(entries, entries.len()) {
        let i = choose|i: int|
            0 <= i < entries.len() && !(#[trigger] entries[i]).is_dir && entries[i].file_name
                == "README.md"@;
        let j = if i < at {
            i
        } else {
            i + 1
        };
        assert(longer[j] == entries[i]);
        assert(holds_marker(longer, longer.len()));
    }
    if holds_marker(longer, longer.len()) {
        let j = choose|j: int|
            0 <= j < longer.len() && !(#[trigger] longer[j]).is_dir && longer[j].file_name
                == "README.md"@;
        let i = if j < at {
            j
        } else {
            j - 1
        };
        assert(longer[at] == file);
        assert(longer[j] == entries[i]);
        assert(holds_marker(entries, entries.len()));
    }
}

/// The index file is a skipped file.
pub proof fn lemma_index_file_is_skipped(file: EntryModel)
    requires
        !file.is_dir,
        file.file_name == "SUMMARY.md"@,
    ensures
        is_skipped_file(file),
{
    reveal_strlit("SUMMARY.md");
    reveal_strlit("README.md");
    assert("SUMMARY.md"@[0] != "README.md"@[0]);
    assert("SUMMARY.md"@[7] == '.');
    lemma_first_index_from("SUMMARY.md"@, '.', 0);
}

/// The index file that a run leaves in the root does not make the next run
/// write: with the digest that the first run leaves, a second run on the
/// same listing with a `SUMMARY.md` put in at any place writes nothing.
pub proof fn lemma_second_run_skips_with_index_file(
    source_dir: Seq<char>,
    tree: EntryModel,
    at: int,
    index_file: EntryModel,
    old: Seq<char>,
)
    requires
        0 <= at <= tree.entries.len(),
        !index_file.is_dir,
        index_file.file_name == "SUMMARY.md"@,
    ensures
        summary_content(source_dir, with_entry(tree, at, index_file)) == summary_content(
            source_dir,
            tree,
        ),
        malformed_within(with_entry(tree, at, index_file)) == malformed_within(tree),
        regeneration_of(
            normalized_root(source_dir),
            summary_content(source_dir, with_entry(tree, at, index_file)),
            digest_after(summary_content(source_dir, tree), old),
        ) is None,
{
    lemma_index_file_is_skipped(index_file);
    lemma_skipped_file_changes_nothing(tree, at, index_file);
}

/// The group `group` with `doc` put in before its document at `at`.
pub open spec fn with_document(group: GroupModel, at: int, doc: FileModel) -> GroupModel {
    GroupModel {
        name: group.name,
        path: group.path,
        has_readme: group.has_readme,
        group_list: group.group_list,
        md_list: group.md_list.insert(at, doc),
    }
}

/// The group `group` with `other` in the place of its subgroup at `at`.
pub open spec fn with_subgroup(group: GroupModel, at: int, other: GroupModel) -> GroupModel {
    GroupModel {
        name: group.name,
        path: group.path,
        has_readme: group.has_readme,
        group_list: group.group_list.update(at, other),
        md_list: group.md_list,
    }
}

/// A document that gets no line, put into a list, adds no line.
pub proof fn lemma_document_lines_with_unlisted(
    root: Seq<char>,
    docs: Seq<FileModel>,
    at: int,
    doc: FileModel,
    n: nat,
)
    requires
        0 <= at <= docs.len(),
        !document_listed(relative_path(root, doc.path)),
        n <= docs.len() + 1,
    ensures
        document_lines(root, docs.insert(at, doc), n) == if n <= at {
            document_lines(root, docs, n)
        } else {
            document_lines(root, docs, (n - 1) as nat)
        },
    decreases n,
{
    let longer = docs.insert(at, doc);
    if n > 0 {
        lemma_document_lines_with_unlisted(root, docs, at, doc, (n - 1) as nat);
        if n - 1 < at {
            assert(longer[n - 1] == docs[n - 1]);
        } else if n - 1 == at {
            assert(longer[n - 1] == doc);
        } else {
            assert(longer[n - 1] == docs[n - 2]);
        }
    }
}

/// A subgroup replaced by one with the same lines leaves the lines of the
/// subgroups as they were.
pub proof fn lemma_subgroup_lines_with_equal(
    root: Seq<char>,
    groups: Seq<GroupModel>,
    at: int,
    other: GroupModel,
    n: nat,
)
    requires
        0 <= at < groups.len(),
        render_group(root, other) == render_group(root, groups[at]),
        n <= groups.len(),
    ensures
        subgroup_lines(root, groups.update(at, other), n) == subgroup_lines(root, groups, n),
    decreases n,
{
    if n > 0 {
        lemma_subgroup_lines_with_equal(root, groups, at, other, (n - 1) as nat);
    }
}

/// A `README.md`, or the index file of the root, put among the documents of
/// a group at any place leaves the rendered lines as they were.
pub proof fn lemma_unlisted_document_changes_nothing(
    root: Seq<char>,
    group: GroupModel,
    at: int,
    doc: FileModel,
)
    requires
        0 <= at <= group.md_list.len(),
        !document_listed(relative_path(root, doc.path)),
    ensures
        render_group(root, with_document(group, at, doc)) == render_group(root, group),
{
    lemma_document_lines_with_unlisted(root, group.md_list, at, doc, group.md_list.len() + 1);
}

/// A subgroup replaced by one with the same lines leaves the lines of the
/// whole as they were; so what holds of one group's documents holds at any
/// depth of a tree.
pub proof fn lemma_equal_subgroup_changes_nothing(
    root: Seq<char>,
    group: GroupModel,
    at: int,
    other: GroupModel,
)
    requires
        0 <= at < group.group_list.len(),
        render_group(root, other) == render_group(root, group.group_list[at]),
    ensures
        render_group(root, with_subgroup(group, at, other)) == render_group(root, group),
{
    lemma_subgroup_lines_with_equal(root, group.group_list, at, other, group.group_list.len());
}

/// Whether `line` is the line of one of the first `n` documents of `docs`.
pub open spec fn document_line_of(root: Seq<char>, docs: Seq<FileModel>, n: nat, line: Seq<char>) -> bool {
    exists|k: int|
        0 <= k < n && k < docs.len() && line == document_link(
            relative_path(root, (#[trigger] docs[k]).path),
            docs[k].name,
        )
}

/// Whether `line` is the link of `group` or the line of one of its
/// documents.
pub open spec fn line_of_group(root: Seq<char>, group: GroupModel, line: Seq<char>) -> bool {
    let rel = relative_path(root, group.path);
    line == group_link(rel, display_title(rel, group.name)) || document_line_of(
        root,
        group.md_list,
        group.md_list.len(),
        line,
    )
}

/// Whether `line` is the heading, a blank line, a rule, or a line of a group
/// that is `tree` or lies at any depth below it.
pub open spec fn line_from(root: Seq<char>, tree: GroupModel, line: Seq<char>) -> bool {
    line == "# Summary"@ || line.len() == 0 || line == "----"@ || exists|group: GroupModel|
        #[trigger] group_within(tree, group) && line_of_group(root, group, line)
}

/// Whether every line is one of `tree`.
pub open spec fn lines_from(root: Seq<char>, tree: GroupModel, lines: Seq<Seq<char>>) -> bool {
    forall|i: int| 0 <= i < lines.len() ==> line_from(root, tree, #[trigger] lines[i])
}

/// Whether `line` is the heading, a blank line, a rule, or a line of the
/// group of `dir` or of a directory below it that is reached through
/// directories with a `README.md` only, and has one itself.
pub open spec fn line_from_kept(root: Seq<char>, dir: EntryModel, line: Seq<char>) -> bool {
    line == "# Summary"@ || line.len() == 0 || line == "----"@ || exists|group: GroupModel|
        (group == group_of(dir) || #[trigger] made_along_kept_route(dir, group)) && line_of_group(
            root,
            group,
            line,
        )
}

/// The lines of documents are lines of those documents.
pub proof fn lemma_document_lines_from(root: Seq<char>, docs: Seq<FileModel>, n: nat)
    ensures
        forall|i: int|
            0 <= i < document_lines(root, docs, n).len() ==> document_line_of(
                root,
                docs,
                n,
                #[trigger] document_lines(root, docs, n)[i],
            ),
    decreases n,
{
    if n > 0 && n <= docs.len() {
        let before = document_lines(root, docs, (n - 1) as nat);
        let now = document_lines(root, docs, n);
        lemma_document_lines_from(root, docs, (n - 1) as nat);
        assert forall|i: int| 0 <= i < now.len() implies document_line_of(
            root,
            docs,
            n,
            #[trigger] now[i],
        ) by {
            if i < before.len() {
                assert(document_line_of(root, docs, (n - 1) as nat, before[i]));
                let k = choose|k: int|
                    0 <= k < n - 1 && k < docs.len() && before[i] == document_link(
                        relative_path(root, (#[trigger] docs[k]).path),
                        docs[k].name,
                    );
                assert(now[i] == document_link(relative_path(root, docs[k].path), docs[k].name));
            } else {
                assert(now[i] == document_link(
                    relative_path(root, docs[n - 1].path),
                    docs[n - 1].name,
                ));
            }
        }
    }
}

/// A line of a subgroup is a line of the group.
pub proof fn lemma_line_from_subgroup(root: Seq<char>, tree: GroupModel, k: int, line: Seq<char>)
    requires
        0 <= k < tree.group_list.len(),
        line_from(root, tree.group_list[k], line),
    ensures
        line_from(root, tree, line),
{
    if !(line == "# Summary"@ || line.len() == 0 || line == "----"@) {
        let group = choose|group: GroupModel|
            #[trigger] group_within(tree.group_list[k], group) && line_of_group(root, group, line);
        assert(group_within(tree, group));
    }
}

/// The lines of the first `n` subgroups of `tree` are lines of `tree`.
pub proof fn lemma_subgroup_lines_from(root: Seq<char>, tree: GroupModel, n: nat)
    requires
        n <= tree.group_list.len(),
    ensures
        lines_from(root, tree, subgroup_lines(root, tree.group_list, n)),
    decreases tree, n,
{
    if n > 0 {
        let before = subgroup_lines(root, tree.group_list, (n - 1) as nat);
        let last = render_group(root, tree.group_list[n - 1]);
        let now = subgroup_lines(root, tree.group_list, n);
        lemma_subgroup_lines_from(root, tree, (n - 1) as nat);
        lemma_render_lines_from(root, tree.group_list[n - 1]);
        assert forall|i: int| 0 <= i < now.len() implies line_from(root, tree, #[trigger] now[i]) by {
            if i < before.len() {
                assert(now[i] == before[i]);
            } else {
                assert(now[i] == last[i - before.len()]);
                lemma_line_from_subgroup(root, tree, n - 1, now[i]);
            }
        }
    }
}

/// Every rendered line is the heading, a blank line, a rule, or a line of a
/// group of the tree: nothing else is rendered.
pub proof fn lemma_render_lines_from(root: Seq<char>, tree: GroupModel)
    ensures
        lines_from(root, tree, render_group(root, tree)),
    decreases tree, tree.group_list.len() + 1,
{
    let rel = relative_path(root, tree.path);
    let title = display_title(rel, tree.name);
    let header = group_header(rel, title);
    let documents = document_lines(root, tree.md_list, tree.md_list.len());
    let below = subgroup_lines(root, tree.group_list, tree.group_list.len());
    let lines = render_group(root, tree);
    lemma_document_lines_from(root, tree.md_list, tree.md_list.len());
    lemma_subgroup_lines_from(root, tree, tree.group_list.len());
    assert(group_within(tree, tree));
    assert(lines == header + documents + below);
    assert forall|i: int| 0 <= i < lines.len() implies line_from(root, tree, #[trigger] lines[i]) by {
        if i < header.len() {
            assert(lines[i] == header[i]);
            assert(header[i] == "# Summary"@ || header[i] == group_link(rel, title)
                || header[i].len() == 0 || header[i] == "----"@);
            if header[i] == group_link(rel, title) {
                assert(line_of_group(root, tree, lines[i]));
            }
        } else if i < header.len() + documents.len() {
            assert(lines[i] == documents[i - header.len()]);
            assert(line_of_group(root, tree, lines[i]));
        } else {
            assert(lines[i] == below[i - header.len() - documents.len()]);
        }
    }
}

/// Nothing of a dropped directory is rendered: every line rendered for the
/// tree built from a listing is the heading, a blank line, a rule, or the
/// link or a document line of the root or of a directory that is reached
/// through directories with a `README.md` only, and has one itself.
pub proof fn lemma_rendered_lines_come_from_kept_directories(root: Seq<char>, dir: EntryModel)
    ensures
        forall|i: int|
            0 <= i < render_group(root, group_of(dir)).len() ==> line_from_kept(
                root,
                dir,
                #[trigger] render_group(root, group_of(dir))[i],
            ),
{
    let lines = render_group(root, group_of(dir));
    lemma_render_lines_from(root, group_of(dir));
    assert forall|i: int| 0 <= i < lines.len() implies line_from_kept(
        root,
        dir,
        #[trigger] lines[i],
    ) by {
        let line = lines[i];
        assert(line_from(root, group_of(dir), line));
        if !(line == "# Summary"@ || line.len() == 0 || line == "----"@) {
            let group = choose|group: GroupModel|
                #[trigger] group_within(group_of(dir), group) && line_of_group(root, group, line);
            if group != group_of(dir) {
                lemma_group_comes_from_kept_directory(dir, group);
            }
        }
    }
}

} // verus!
