use mdbook_auto_gen_summary::digest::{digest, digest_of_text, encode_digest};
use mdbook_auto_gen_summary::error::SummaryError;
use mdbook_auto_gen_summary::gate::{
    decide, gen_summary, join_lines, normalize_root, IndexUpdate, Regeneration,
};
use mdbook_auto_gen_summary::preprocessor::AutoGenSummary;
use mdbook_auto_gen_summary::walk::FsEntry;

fn file(name: &str, path: &str) -> FsEntry {
    FsEntry { file_name: name.to_string(), path: path.to_string(), is_dir: false, entries: vec![] }
}

fn dir(name: &str, path: &str, entries: Vec<FsEntry>) -> FsEntry {
    FsEntry { file_name: name.to_string(), path: path.to_string(), is_dir: true, entries }
}

fn docs_tree() -> FsEntry {
    dir(
        "docs",
        "/docs/",
        vec![
            file("README.md", "/docs/README.md"),
            dir(
                "guide",
                "/docs/guide",
                vec![
                    file("README.md", "/docs/guide/README.md"),
                    file("intro.md", "/docs/guide/intro.md"),
                ],
            ),
        ],
    )
}

const DOCS_INDEX: &str =
    "# Summary\n* [Welcome](README.md)\n\n* [guide](guide/README.md)\n\n----\n    * [intro](guide/intro.md)";

#[test]
fn digest_of_known_inputs() {
    assert_eq!(digest(b""), "D41D8CD98F00B204E9800998ECF8427E");
    assert_eq!(digest(b"abc"), "900150983CD24FB0D6963F7D28E17F72");
    assert_eq!(digest_of_text("hello world"), "5EB63BBBE01EEED093CB22BB8F5ACDC3");
}

#[test]
fn encode_digest_writes_upper_case_pairs() {
    assert_eq!(encode_digest(&vec![0x00, 0xff, 0x1a, 0xa1]), "00FF1AA1");
    assert_eq!(encode_digest(&vec![]), "");
}

#[test]
fn join_lines_puts_line_feeds_between() {
    assert_eq!(join_lines(&vec![]), "");
    assert_eq!(join_lines(&vec!["a".to_string()]), "a");
    assert_eq!(join_lines(&vec!["a".to_string(), "".to_string(), "b".to_string()]), "a\n\nb");
}

#[test]
fn normalize_root_adds_one_slash() {
    assert_eq!(normalize_root(&"/docs".to_string()), "/docs/");
    assert_eq!(normalize_root(&"/docs/".to_string()), "/docs/");
    assert_eq!(normalize_root(&"".to_string()), "/");
}

#[test]
fn decide_skips_on_the_same_digest() {
    let lines = vec!["abc".to_string()];
    let same = "900150983CD24FB0D6963F7D28E17F72".to_string();
    assert_eq!(decide(&"/r/".to_string(), &lines, &same), Regeneration::Skipped);
    assert_eq!(
        decide(&"/r/".to_string(), &lines, &"900150983cd24fb0d6963f7d28e17f72".to_string()),
        Regeneration::Written(IndexUpdate {
            target: "/r//SUMMARY.md".to_string(),
            content: "abc".to_string(),
            digest: same,
        })
    );
}

#[test]
fn end_to_end_index_of_a_small_tree() {
    let outcome = gen_summary(&"/docs".to_string(), &docs_tree(), &String::new()).unwrap();
    match outcome {
        Regeneration::Written(update) => {
            assert_eq!(update.content, DOCS_INDEX);
            assert_eq!(update.target, "/docs//SUMMARY.md");
            assert_eq!(update.digest, digest(DOCS_INDEX.as_bytes()));
            assert_eq!(update.digest.len(), 32);
        }
        Regeneration::Skipped => panic!("the first run writes"),
    }
}

#[test]
fn second_run_on_unchanged_tree_writes_nothing() {
    let first = gen_summary(&"/docs".to_string(), &docs_tree(), &String::new()).unwrap();
    let stored = match first {
        Regeneration::Written(update) => update.digest,
        Regeneration::Skipped => panic!("the first run writes"),
    };
    let second = gen_summary(&"/docs".to_string(), &docs_tree(), &stored).unwrap();
    assert_eq!(second, Regeneration::Skipped);
    assert_eq!(stored, digest(DOCS_INDEX.as_bytes()));
}

#[test]
fn index_file_left_by_the_first_run_changes_nothing() {
    let first = gen_summary(&"/docs".to_string(), &docs_tree(), &String::new()).unwrap();
    let stored = match first {
        Regeneration::Written(update) => update.digest,
        Regeneration::Skipped => panic!("the first run writes"),
    };
    let mut tree = docs_tree();
    tree.entries.insert(1, file("SUMMARY.md", "/docs/SUMMARY.md"));
    assert_eq!(gen_summary(&"/docs".to_string(), &tree, &stored), Ok(Regeneration::Skipped));
    let mut tree = docs_tree();
    tree.entries.insert(0, file("SUMMARY.md", "/docs/SUMMARY.md"));
    tree.entries.push(file("notes.txt", "/docs/notes.txt"));
    assert_eq!(gen_summary(&"/docs".to_string(), &tree, &stored), Ok(Regeneration::Skipped));
}

#[test]
fn root_of_any_name_is_rendered_as_the_welcome_page() {
    let tree = dir("manual", "/m/", vec![file("README.md", "/m/README.md")]);
    match gen_summary(&"/m".to_string(), &tree, &String::new()).unwrap() {
        Regeneration::Written(update) => {
            assert_eq!(update.content, "# Summary\n* [Welcome](README.md)\n");
        }
        Regeneration::Skipped => panic!("the first run writes"),
    }
}

#[test]
fn changed_tree_is_written_again() {
    let stored = digest(DOCS_INDEX.as_bytes());
    let tree = dir("docs", "/docs/", vec![file("README.md", "/docs/README.md")]);
    let outcome = gen_summary(&"/docs/".to_string(), &tree, &stored).unwrap();
    match outcome {
        Regeneration::Written(update) => {
            assert_eq!(update.content, "# Summary\n* [Welcome](README.md)\n");
            assert_ne!(update.digest, stored);
        }
        Regeneration::Skipped => panic!("a changed tree is written"),
    }
}

#[test]
fn gen_summary_reports_malformed_and_unreadable_trees() {
    let bad = dir("docs", "/docs/", vec![file("Makefile", "/docs/Makefile")]);
    assert_eq!(gen_summary(&"/docs".to_string(), &bad, &String::new()), Err(SummaryError::MalformedEntry));
    let not_dir = file("docs", "/docs");
    assert_eq!(gen_summary(&"/docs".to_string(), &not_dir, &String::new()), Err(SummaryError::Io));
}

#[test]
fn preprocessor_name_and_renderers() {
    let pre = AutoGenSummary::new();
    assert_eq!(pre.name(), "auto-gen-summary-preprocessor");
    assert!(pre.supports_renderer("html"));
    assert!(pre.supports_renderer(""));
    assert!(!pre.supports_renderer("not-supported"));
}

#[test]
fn run_blows_up_on_request() {
    let pre = AutoGenSummary::new();
    assert_eq!(
        pre.run(true, &"/docs".to_string(), &docs_tree(), &String::new()),
        Err(SummaryError::InjectedFailure)
    );
}

#[test]
fn run_generates_the_index() {
    let pre = AutoGenSummary::new();
    let stored = digest(DOCS_INDEX.as_bytes());
    assert_eq!(pre.run(false, &"/docs".to_string(), &docs_tree(), &stored), Ok(Regeneration::Skipped));
    assert!(matches!(
        pre.run(false, &"/docs".to_string(), &docs_tree(), &String::new()),
        Ok(Regeneration::Written(_))
    ));
}
