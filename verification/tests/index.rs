use docrank::document::Document;
use docrank::error::ErrorKind;
use docrank::index::{build, Build, Index, Source};

fn index_source(path: &str, text: Option<&str>) -> Source {
    Source { path: path.to_string(), text: text.map(|t| t.to_string()) }
}

fn index_contents(index: &Index) -> Vec<(String, Vec<(String, usize)>, usize)> {
    (0..index.len())
        .map(|i| {
            let document = index.document(i);
            let entries = (0..document.unique_terms())
                .map(|j| (document.entry(j).term.clone(), document.entry(j).count))
                .collect();
            (index.path(i).to_string(), entries, document.total_tokens())
        })
        .collect()
}

fn index_sorted(index: &Index) -> Vec<(String, Vec<(String, usize)>, usize)> {
    let mut contents = index_contents(index);
    contents.sort();
    contents
}

#[test]
fn index_build_of_an_empty_corpus_is_empty() {
    let built = build(&Vec::new()).unwrap();
    assert_eq!(built.index.len(), 0);
    assert!(built.skipped.is_empty());
    assert_eq!(built.index.document_frequency("A"), 0);
    assert!(built.index.get("a.xml").is_none());
}

#[test]
fn index_build_indexes_every_document_under_its_path() {
    let built = build(&vec![
        index_source("a.xml", Some("glClear glClear void")),
        index_source("b.xml", Some("glBegin void")),
    ])
    .unwrap();
    assert!(built.skipped.is_empty());
    assert_eq!(
        index_contents(&built.index),
        vec![
            (
                "a.xml".to_string(),
                vec![("GLCLEAR".to_string(), 2), ("VOID".to_string(), 1)],
                3
            ),
            (
                "b.xml".to_string(),
                vec![("GLBEGIN".to_string(), 1), ("VOID".to_string(), 1)],
                2
            ),
        ]
    );
    assert_eq!(built.index.document_frequency("GLCLEAR"), 1);
    assert_eq!(built.index.document_frequency("VOID"), 2);
    assert_eq!(built.index.document_frequency("void"), 0);
    assert_eq!(built.index.position("b.xml"), Some(1));
    assert_eq!(built.index.get("a.xml").unwrap().count("GLCLEAR"), 2);
}

#[test]
fn index_build_skips_a_document_without_text_and_goes_on() {
    let built = build(&vec![
        index_source("a.xml", Some("one")),
        index_source("broken.xml", None),
        index_source("c.xml", Some("three")),
    ])
    .unwrap();
    assert_eq!(built.index.len(), 2);
    assert_eq!(built.skipped, vec!["broken.xml".to_string()]);
    assert_eq!(built.index.path(0), "a.xml");
    assert_eq!(built.index.path(1), "c.xml");
}

#[test]
fn index_build_fails_on_a_path_that_comes_twice() {
    let error = build(&vec![
        index_source("a.xml", Some("one")),
        index_source("b.xml", Some("two")),
        index_source("a.xml", Some("three")),
        index_source("b.xml", Some("four")),
    ])
    .unwrap_err();
    assert_eq!(error.kind, ErrorKind::DuplicateDocument);
    assert_eq!(error.path, "a.xml");
}

#[test]
fn index_build_does_not_count_a_skipped_path_as_a_duplicate() {
    let built = build(&vec![
        index_source("a.xml", None),
        index_source("a.xml", Some("text")),
        index_source("a.xml", None),
    ])
    .unwrap();
    assert_eq!(built.index.len(), 1);
    assert_eq!(built.skipped, vec!["a.xml".to_string(), "a.xml".to_string()]);
}

#[test]
fn index_build_twice_gives_the_same_content_in_any_order() {
    let first = build(&vec![
        index_source("x", Some("the quick brown fox")),
        index_source("y", Some("jumps over the lazy dog")),
        index_source("z", None),
        index_source("w", Some("")),
    ])
    .unwrap();
    let second = build(&vec![
        index_source("w", Some("")),
        index_source("z", None),
        index_source("y", Some("jumps over the lazy dog")),
        index_source("x", Some("the quick brown fox")),
    ])
    .unwrap();
    assert_eq!(index_sorted(&first.index), index_sorted(&second.index));
    assert_ne!(index_contents(&first.index), index_contents(&second.index));
    let again = build(&vec![
        index_source("x", Some("the quick brown fox")),
        index_source("y", Some("jumps over the lazy dog")),
        index_source("z", None),
        index_source("w", Some("")),
    ])
    .unwrap();
    assert_eq!(index_contents(&first.index), index_contents(&again.index));
}

#[test]
fn index_insert_refuses_a_path_that_it_holds() {
    let mut index = Index::new();
    assert!(index.insert("a".to_string(), Document::from_text("x y")).is_ok());
    assert!(index.insert("b".to_string(), Document::from_text("y z")).is_ok());
    let error = index.insert("a".to_string(), Document::from_text("other")).unwrap_err();
    assert_eq!(error.kind, ErrorKind::DuplicateDocument);
    assert_eq!(error.path, "a");
    assert_eq!(index.len(), 2);
    assert_eq!(index.get("a").unwrap().count("X"), 1);
    assert_eq!(index.get("a").unwrap().count("OTHER"), 0);
    assert!(index.get("c").is_none());
    assert_eq!(index.position("c"), None);
}

#[test]
fn index_document_frequency_counts_documents_not_occurrences() {
    let mut index = Index::new();
    index.insert("1".to_string(), Document::from_text("a a a")).unwrap();
    index.insert("2".to_string(), Document::from_text("b")).unwrap();
    index.insert("3".to_string(), Document::from_text("a b")).unwrap();
    assert_eq!(index.document_frequency("A"), 2);
    assert_eq!(index.document_frequency("B"), 2);
    assert_eq!(index.document_frequency("C"), 0);
}

#[test]
fn index_run_takes_one_document_at_a_time() {
    let mut run = Build::new();
    assert_eq!(run.index.len(), 0);
    assert!(run.skipped.is_empty());
    assert!(run.add(&index_source("a", Some("x y"))).is_ok());
    assert!(run.add(&index_source("b", None)).is_ok());
    assert!(run.add(&index_source("c", Some("y"))).is_ok());
    let error = run.add(&index_source("a", Some("z"))).unwrap_err();
    assert_eq!(error.kind, ErrorKind::DuplicateDocument);
    assert_eq!(error.path, "a");
    assert!(run.add(&index_source("a", None)).is_ok());
    assert_eq!(run.skipped, vec!["b".to_string(), "a".to_string()]);
    assert_eq!(
        index_contents(&run.index),
        vec![
            ("a".to_string(), vec![("X".to_string(), 1), ("Y".to_string(), 1)], 2),
            ("c".to_string(), vec![("Y".to_string(), 1)], 1),
        ]
    );
}

#[test]
fn index_run_and_build_agree() {
    let sources = vec![
        index_source("1", Some("one two")),
        index_source("2", None),
        index_source("3", Some("two three three")),
    ];
    let mut run = Build::new();
    for source in &sources {
        run.add(source).unwrap();
    }
    let built = build(&sources).unwrap();
    assert_eq!(index_contents(&run.index), index_contents(&built.index));
    assert_eq!(run.skipped, built.skipped);
}
