use mdbook_auto_gen_summary::error::SummaryError;
use mdbook_auto_gen_summary::tree::{MdFile, MdGroup};
use mdbook_auto_gen_summary::walk::{classify, walk_dir, FileKind, FsEntry};

fn file(name: &str, path: &str) -> FsEntry {
    FsEntry { file_name: name.to_string(), path: path.to_string(), is_dir: false, entries: vec![] }
}

fn dir(name: &str, path: &str, entries: Vec<FsEntry>) -> FsEntry {
    FsEntry { file_name: name.to_string(), path: path.to_string(), is_dir: true, entries }
}

#[test]
fn walk_keeps_only_directories_with_a_readme() {
    let tree = dir(
        "docs",
        "/docs/",
        vec![
            dir("kept", "/docs/kept", vec![file("README.md", "/docs/kept/README.md")]),
            dir("bare", "/docs/bare", vec![file("notes.md", "/docs/bare/notes.md")]),
            dir(
                "hollow",
                "/docs/hollow",
                vec![dir(
                    "deep",
                    "/docs/hollow/deep",
                    vec![file("README.md", "/docs/hollow/deep/README.md")],
                )],
            ),
        ],
    );
    let group = walk_dir(&tree).unwrap();
    assert_eq!(
        group,
        MdGroup {
            name: "docs".to_string(),
            path: "/docs/".to_string(),
            has_readme: false,
            group_list: vec![MdGroup {
                name: "kept".to_string(),
                path: "/docs/kept".to_string(),
                has_readme: true,
                group_list: vec![],
                md_list: vec![],
            }],
            md_list: vec![],
        }
    );
}

#[test]
fn walk_filters_documents_by_extension() {
    let tree = dir(
        "docs",
        "/d/",
        vec![
            file("README.md", "/d/README.md"),
            file("SUMMARY.md", "/d/SUMMARY.md"),
            file("one.md", "/d/one.md"),
            file("two.MD", "/d/two.MD"),
            file("three.Md", "/d/three.Md"),
            file("pic.png", "/d/pic.png"),
            file("note.txt", "/d/note.txt"),
            file("a.b.md", "/d/a.b.md"),
            file("x.md.bak", "/d/x.md.bak"),
            file("y.mdx", "/d/y.mdx"),
            file("z.m", "/d/z.m"),
        ],
    );
    let group = walk_dir(&tree).unwrap();
    assert!(group.has_readme);
    assert_eq!(
        group.md_list,
        vec![
            MdFile { name: "one".to_string(), path: "/d/one.md".to_string() },
            MdFile { name: "two".to_string(), path: "/d/two.MD".to_string() },
            MdFile { name: "three".to_string(), path: "/d/three.Md".to_string() },
            MdFile { name: "x".to_string(), path: "/d/x.md.bak".to_string() },
        ]
    );
    assert!(group.group_list.is_empty());
}

#[test]
fn index_file_is_no_document_in_any_directory() {
    let tree = dir(
        "docs",
        "/d/",
        vec![
            file("SUMMARY.md", "/d/SUMMARY.md"),
            dir(
                "sub",
                "/d/sub",
                vec![
                    file("README.md", "/d/sub/README.md"),
                    file("SUMMARY.md", "/d/sub/SUMMARY.md"),
                    file("summary.md", "/d/sub/summary.md"),
                ],
            ),
        ],
    );
    let group = walk_dir(&tree).unwrap();
    assert!(group.md_list.is_empty());
    assert_eq!(
        group.group_list[0].md_list,
        vec![MdFile { name: "summary".to_string(), path: "/d/sub/summary.md".to_string() }]
    );
}

#[test]
fn attached_group_is_the_walk_of_the_subdirectory() {
    let sub = || {
        dir(
            "guide",
            "/d/guide",
            vec![
                file("README.md", "/d/guide/README.md"),
                file("intro.md", "/d/guide/intro.md"),
                dir("deep", "/d/guide/deep", vec![file("README.md", "/d/guide/deep/README.md")]),
            ],
        )
    };
    let tree = dir("d", "/d/", vec![sub()]);
    let group = walk_dir(&tree).unwrap();
    assert_eq!(group.group_list.len(), 1);
    assert_eq!(group.group_list[0], walk_dir(&sub()).unwrap());
    assert_eq!(group.group_list[0].name, "guide");
    assert_eq!(group.group_list[0].path, "/d/guide");
    assert!(group.group_list[0].has_readme);
}

#[test]
fn locations_stay_under_the_parent() {
    let tree = dir(
        "d",
        "/d/",
        vec![dir(
            "a",
            "/d/a",
            vec![
                file("README.md", "/d/a/README.md"),
                file("one.md", "/d/a/one.md"),
                dir("b", "/d/a/b", vec![file("README.md", "/d/a/b/README.md")]),
            ],
        )],
    );
    let group = walk_dir(&tree).unwrap();
    let a = &group.group_list[0];
    let b = &a.group_list[0];
    assert_eq!(group.name, "d");
    assert_eq!(a.path, format!("{}{}", group.path, a.name));
    assert_eq!(b.path, format!("{}/{}", a.path, b.name));
    assert!(a.md_list[0].path.starts_with(a.path.as_str()));
}

#[test]
fn walk_keeps_the_listed_order() {
    let tree = dir(
        "docs",
        "/d/",
        vec![
            file("z.md", "/d/z.md"),
            dir("b", "/d/b", vec![file("README.md", "/d/b/README.md")]),
            file("a.md", "/d/a.md"),
            dir("a", "/d/a", vec![file("README.md", "/d/a/README.md")]),
        ],
    );
    let group = walk_dir(&tree).unwrap();
    let docs: Vec<&str> = group.md_list.iter().map(|d| d.name.as_str()).collect();
    let groups: Vec<&str> = group.group_list.iter().map(|g| g.name.as_str()).collect();
    assert_eq!(docs, vec!["z", "a"]);
    assert_eq!(groups, vec!["b", "a"]);
}

#[test]
fn file_without_extension_is_malformed() {
    let tree = dir("docs", "/d/", vec![file("README.md", "/d/README.md"), file("LICENSE", "/d/LICENSE")]);
    assert_eq!(walk_dir(&tree), Err(SummaryError::MalformedEntry));
}

#[test]
fn malformed_file_in_a_dropped_directory_still_fails() {
    let tree = dir(
        "docs",
        "/d/",
        vec![file("README.md", "/d/README.md"), dir("bare", "/d/bare", vec![file("Makefile", "/d/bare/Makefile")])],
    );
    assert_eq!(walk_dir(&tree), Err(SummaryError::MalformedEntry));
}

#[test]
fn walking_a_file_is_an_io_error() {
    assert_eq!(walk_dir(&file("a.md", "/d/a.md")), Err(SummaryError::Io));
}

#[test]
fn empty_root_is_kept() {
    let group = walk_dir(&dir("docs", "/d/", vec![])).unwrap();
    assert_eq!(group.name, "docs");
    assert_eq!(group.path, "/d/");
    assert!(!group.has_readme);
    assert!(group.group_list.is_empty());
    assert!(group.md_list.is_empty());
}

#[test]
fn classify_tells_the_kinds_apart() {
    assert_eq!(classify("README.md"), FileKind::Marker);
    assert_eq!(classify("SUMMARY.md"), FileKind::Skipped);
    assert_eq!(classify("notes"), FileKind::Malformed);
    assert_eq!(classify("notes.rs"), FileKind::Skipped);
    assert_eq!(classify("readme.md"), FileKind::Document("readme".to_string()));
    assert_eq!(classify("intro.MD"), FileKind::Document("intro".to_string()));
    assert_eq!(classify(".md"), FileKind::Document(String::new()));
}

#[test]
fn error_messages() {
    assert_eq!(SummaryError::InjectedFailure.message(), "Boom!!1!");
    assert_eq!(SummaryError::MalformedEntry.message(), "a file name has no extension");
    assert_eq!(SummaryError::Io.message(), "the content tree could not be read or written");
}
