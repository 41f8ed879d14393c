use mdbook_auto_gen_summary::render::{gen_summary_lines, indent, relative};
use mdbook_auto_gen_summary::text::{
    chars_of, count, find_from, has_prefix, has_suffix, same_chars, separator_count,
};
use mdbook_auto_gen_summary::tree::{MdFile, MdGroup};

fn doc(name: &str, path: &str) -> MdFile {
    MdFile { name: name.to_string(), path: path.to_string() }
}

fn group(name: &str, path: &str, groups: Vec<MdGroup>, docs: Vec<MdFile>) -> MdGroup {
    MdGroup {
        name: name.to_string(),
        path: path.to_string(),
        has_readme: true,
        group_list: groups,
        md_list: docs,
    }
}

fn chars(s: &str) -> Vec<char> {
    s.chars().collect()
}

#[test]
fn count_of_empty_text_is_one() {
    assert_eq!(count(&String::new()), 1);
}

#[test]
fn count_is_one_more_than_the_separators() {
    assert_eq!(count(&"guide".to_string()), 1);
    assert_eq!(count(&"guide/intro.md".to_string()), 2);
    assert_eq!(count(&"a/b/c/doc.md".to_string()), 4);
    assert_eq!(count(&"/".to_string()), 2);
    assert_eq!(count(&"a//b".to_string()), 3);
}

#[test]
fn separator_count_counts_slashes_only() {
    assert_eq!(separator_count(&chars("a.b/c\\d/e")), 2);
    assert_eq!(separator_count(&chars("")), 0);
}

#[test]
fn chars_of_keeps_every_character() {
    assert_eq!(chars_of("a/é.md"), vec!['a', '/', 'é', '.', 'm', 'd']);
    assert_eq!(chars_of(""), Vec::<char>::new());
}

#[test]
fn same_chars_compares_whole_texts() {
    assert!(same_chars(&chars("src"), &chars("src")));
    assert!(!same_chars(&chars("src"), &chars("srcs")));
    assert!(!same_chars(&chars("src"), &chars("sra")));
    assert!(same_chars(&chars(""), &chars("")));
}

#[test]
fn prefix_and_suffix() {
    assert!(has_prefix(&chars("/docs/guide"), &chars("/docs/")));
    assert!(!has_prefix(&chars("/doc"), &chars("/docs/")));
    assert!(!has_prefix(&chars("/dogs/guide"), &chars("/docs/")));
    assert!(has_prefix(&chars("x"), &chars("")));
    assert!(has_suffix(&chars("guide/README.md"), &chars("README.md")));
    assert!(!has_suffix(&chars("guide/README.mdx"), &chars("README.md")));
    assert!(!has_suffix(&chars("md"), &chars("README.md")));
}

#[test]
fn find_from_gives_first_match_or_length() {
    let name = chars("a.b.md");
    assert_eq!(find_from(&name, '.', 0), 1);
    assert_eq!(find_from(&name, '.', 2), 3);
    assert_eq!(find_from(&name, '.', 4), 6);
    assert_eq!(find_from(&name, '.', 6), 6);
}

#[test]
fn relative_strips_the_root_prefix() {
    let root = chars("/docs/");
    assert_eq!(relative(&root, "/docs/guide/intro.md"), "guide/intro.md");
    assert_eq!(relative(&root, "/docs/"), "");
    assert_eq!(relative(&root, "/other/x.md"), "/other/x.md");
    assert_eq!(relative(&root, "/docs/a/docs/b.md"), "a/docs/b.md");
}

#[test]
fn indent_is_four_spaces_per_level() {
    assert_eq!(indent(0), "");
    assert_eq!(indent(1), "    ");
    assert_eq!(indent(3), "            ");
}

#[test]
fn root_with_one_group() {
    let tree = group(
        "docs",
        "/docs/",
        vec![group(
            "guide",
            "/docs/guide",
            vec![],
            vec![doc("intro", "/docs/guide/intro.md")],
        )],
        vec![],
    );
    let lines = gen_summary_lines("/docs/", &tree);
    assert_eq!(
        lines,
        vec![
            "# Summary".to_string(),
            "* [Welcome](README.md)".to_string(),
            "".to_string(),
            "* [guide](guide/README.md)".to_string(),
            "".to_string(),
            "----".to_string(),
            "    * [intro](guide/intro.md)".to_string(),
        ]
    );
}

#[test]
fn root_named_src_is_the_welcome_page() {
    let tree = group("src", "/book/src/", vec![], vec![doc("faq", "/book/src/faq.md")]);
    let lines = gen_summary_lines("/book/src/", &tree);
    assert_eq!(
        lines,
        vec![
            "# Summary".to_string(),
            "* [Welcome](README.md)".to_string(),
            "".to_string(),
            "* [faq](faq.md)".to_string(),
        ]
    );
}

#[test]
fn root_is_the_welcome_page_whatever_its_name() {
    let tree = group("manual", "/m/", vec![], vec![]);
    let lines = gen_summary_lines("/m/", &tree);
    assert_eq!(
        lines,
        vec!["# Summary".to_string(), "* [Welcome](README.md)".to_string(), "".to_string()]
    );
}

#[test]
fn group_named_src_below_the_root_is_a_welcome_page() {
    let tree = group("book", "/b/", vec![group("src", "/b/src", vec![], vec![])], vec![]);
    let lines = gen_summary_lines("/b/", &tree);
    assert_eq!(
        lines,
        vec![
            "# Summary".to_string(),
            "* [Welcome](README.md)".to_string(),
            "".to_string(),
            "* [Welcome](src/README.md)".to_string(),
            "".to_string(),
        ]
    );
}

#[test]
fn group_outside_the_root_keeps_its_name() {
    let tree = group("notes", "/elsewhere/notes", vec![], vec![]);
    let lines = gen_summary_lines("/m/", &tree);
    assert_eq!(lines, vec!["        * [notes](/elsewhere/notes/README.md)".to_string()]);
}

#[test]
fn nested_groups_are_indented_by_their_depth() {
    let inner = group("b", "/r/a/b", vec![], vec![doc("doc", "/r/a/b/doc.md")]);
    let outer = group("a", "/r/a", vec![inner], vec![doc("one", "/r/a/one.md")]);
    let tree = group("r", "/r/", vec![outer], vec![]);
    let lines = gen_summary_lines("/r/", &tree);
    assert_eq!(
        lines,
        vec![
            "# Summary".to_string(),
            "* [Welcome](README.md)".to_string(),
            "".to_string(),
            "* [a](a/README.md)".to_string(),
            "".to_string(),
            "----".to_string(),
            "    * [one](a/one.md)".to_string(),
            "    * [b](a/b/README.md)".to_string(),
            "        * [doc](a/b/doc.md)".to_string(),
        ]
    );
}

#[test]
fn document_indentation_scales_with_its_segments() {
    let tree = group("r", "/r/", vec![], vec![doc("doc", "/r/a/b/c/doc.md")]);
    let lines = gen_summary_lines("/r/", &tree);
    assert_eq!(lines[3], "            * [doc](a/b/c/doc.md)");
    assert_eq!(lines.len(), 4);
}

#[test]
fn readme_and_index_documents_get_no_line() {
    let tree = group(
        "r",
        "/r/",
        vec![],
        vec![
            doc("SUMMARY", "/r/SUMMARY.md"),
            doc("README", "/r/README.md"),
            doc("README", "/r/sub/README.md"),
            doc("SUMMARY", "/r/sub/SUMMARY.md"),
            doc("kept", "/r/kept.md"),
        ],
    );
    let lines = gen_summary_lines("/r/", &tree);
    assert_eq!(
        lines,
        vec![
            "# Summary".to_string(),
            "* [Welcome](README.md)".to_string(),
            "".to_string(),
            "    * [SUMMARY](sub/SUMMARY.md)".to_string(),
            "* [kept](kept.md)".to_string(),
        ]
    );
}

#[test]
fn rendering_twice_gives_the_same_lines() {
    let tree = group(
        "docs",
        "/docs/",
        vec![group("guide", "/docs/guide", vec![], vec![doc("intro", "/docs/guide/intro.md")])],
        vec![doc("faq", "/docs/faq.md")],
    );
    assert_eq!(gen_summary_lines("/docs/", &tree), gen_summary_lines("/docs/", &tree));
}
