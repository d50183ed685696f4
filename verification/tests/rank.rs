use docrank::document::Document;
use docrank::index::{build, Index, Source};
use docrank::rank::{rank, rank_terms, Hit};
use docrank::score::{is_decreasing, parse_query, score_of, weights_of};
use docrank::store::{decode, encode};

const RANK_UNIT: f64 = 1_000_000.0;

fn rank_index(documents: &[(&str, &str)]) -> Index {
    let sources = documents
        .iter()
        .map(|(path, text)| Source { path: path.to_string(), text: Some(text.to_string()) })
        .collect();
    build(&sources).unwrap().index
}

fn rank_table(index: &Index) -> Vec<i64> {
    let n = index.len() as f64;
    (0..=index.len()).map(|df| ((n / (1.0 + df as f64)).ln() * RANK_UNIT).round() as i64).collect()
}

fn rank_list(hits: &[Hit]) -> Vec<(String, i64)> {
    hits.iter().map(|hit| (hit.path.clone(), hit.score)).collect()
}

fn rank_paths(hits: &[Hit]) -> Vec<String> {
    hits.iter().map(|hit| hit.path.clone()).collect()
}

#[test]
fn rank_two_documents_for_a_term_of_one() {
    let index = rank_index(&[("a.xml", "glClear glClear void"), ("b.xml", "glBegin void")]);
    assert_eq!(index.get("a.xml").unwrap().count("GLCLEAR"), 2);
    assert_eq!(index.get("a.xml").unwrap().count("VOID"), 1);
    assert_eq!(index.get("a.xml").unwrap().total_tokens(), 3);
    assert_eq!(index.document_frequency("GLCLEAR"), 1);
    let table = rank_table(&index);
    assert_eq!(table, vec![693147, 0, -405465]);
    let hits = rank(&index, "glclear", &table, 10);
    assert_eq!(rank_list(&hits), vec![("a.xml".to_string(), 0), ("b.xml".to_string(), 0)]);
}

#[test]
fn rank_orders_by_score_then_by_path() {
    let index = rank_index(&[
        ("d.xml", "cherry"),
        ("c.xml", "banana"),
        ("b.xml", "apple"),
        ("a.xml", "apple apple banana"),
    ]);
    let table = rank_table(&index);
    assert_eq!(table[2], 287682);
    let hits = rank(&index, "Apple", &table, 10);
    assert_eq!(
        rank_list(&hits),
        vec![
            ("b.xml".to_string(), 287682),
            ("a.xml".to_string(), 191788),
            ("c.xml".to_string(), 0),
            ("d.xml".to_string(), 0),
        ]
    );
}

#[test]
fn rank_sums_over_the_different_terms_of_the_query() {
    let index = rank_index(&[
        ("1", "red green blue blue"),
        ("2", "red red red red"),
        ("3", "green"),
        ("4", "yellow"),
        ("5", "yellow"),
    ]);
    let table: Vec<i64> = vec![1000, 600, 300, 100, -50, -200];
    let hits = rank(&index, "blue red, RED blue? red!", &table, 5);
    assert_eq!(
        rank_list(&hits),
        vec![
            ("1".to_string(), (2 * 600 + 300) / 4),
            ("2".to_string(), 300),
            ("3".to_string(), 0),
            ("4".to_string(), 0),
            ("5".to_string(), 0),
        ]
    );
    assert_eq!(
        parse_query("blue red, RED blue? red!"),
        vec!["BLUE".to_string(), "RED".to_string(), ",".to_string(), "?".to_string(), "!".to_string()]
    );
}

#[test]
fn rank_returns_the_first_limit_entries() {
    let index = rank_index(&[("c", "x"), ("a", "x y"), ("b", "x y z"), ("d", "z")]);
    let table: Vec<i64> = vec![0, 0, 0, 12, 0];
    let all = rank(&index, "x", &table, usize::MAX);
    assert_eq!(
        rank_list(&all),
        vec![
            ("c".to_string(), 12),
            ("a".to_string(), 6),
            ("b".to_string(), 4),
            ("d".to_string(), 0)
        ]
    );
    for limit in 0..6 {
        let hits = rank(&index, "x", &table, limit);
        assert_eq!(rank_list(&hits), rank_list(&all[..limit.min(4)]));
    }
}

#[test]
fn rank_breaks_ties_by_path_in_lexical_order() {
    let index = rank_index(&[
        ("b/2", "w"),
        ("b", "w"),
        ("a/10", "w"),
        ("B", "w"),
        ("\u{e9}", "w"),
        ("a/2", "w"),
        ("", "w"),
        ("z", "w"),
    ]);
    let table = rank_table(&index);
    let hits = rank(&index, "w", &table, 100);
    assert_eq!(rank_paths(&hits), vec!["", "B", "a/10", "a/2", "b", "b/2", "z", "\u{e9}"]);
    let top = rank(&index, "w", &table, 3);
    assert_eq!(rank_paths(&top), vec!["", "B", "a/10"]);
}

#[test]
fn rank_is_the_same_on_every_call() {
    let index = rank_index(&[
        ("one", "alpha beta gamma"),
        ("two", "beta beta delta"),
        ("three", "gamma"),
        ("four", "alpha alpha"),
        ("five", ""),
    ]);
    let table = rank_table(&index);
    let first = rank_list(&rank(&index, "alpha beta", &table, 4));
    for _ in 0..5 {
        assert_eq!(rank_list(&rank(&index, "alpha beta", &table, 4)), first);
    }
    let loaded = decode(&encode(&index), "index").unwrap();
    assert_eq!(rank_list(&rank(&loaded, "alpha beta", &table, 4)), first);
}

#[test]
fn rank_of_an_empty_query_is_empty() {
    let index = rank_index(&[("a", "x"), ("b", "y")]);
    let table = rank_table(&index);
    assert!(rank(&index, "", &table, 10).is_empty());
    assert!(rank(&index, " \n\t ", &table, 10).is_empty());
    assert!(parse_query("   ").is_empty());
}

#[test]
fn rank_of_an_empty_index_is_empty() {
    let index = Index::new();
    assert!(rank(&index, "anything at all", &[0], 10).is_empty());
    assert!(rank(&index, "anything", &[], 0).is_empty());
    let built = build(&Vec::new()).unwrap().index;
    assert!(rank(&built, "anything", &rank_table(&built), 5).is_empty());
}

#[test]
fn rank_gives_a_document_without_tokens_the_score_zero() {
    let index = rank_index(&[("empty", ""), ("full", "word word")]);
    let table: Vec<i64> = vec![50, -7, 3];
    let hits = rank(&index, "word", &table, 10);
    assert_eq!(rank_list(&hits), vec![("empty".to_string(), 0), ("full".to_string(), -7)]);
}

#[test]
fn rank_weighs_a_term_of_no_document_without_error() {
    let index = rank_index(&[("a", "x"), ("b", "y")]);
    let table = rank_table(&index);
    let hits = rank(&index, "missing", &table, 10);
    assert_eq!(rank_list(&hits), vec![("a".to_string(), 0), ("b".to_string(), 0)]);
    let terms = vec!["MISSING".to_string(), "X".to_string()];
    assert_eq!(weights_of(&index, &terms, &table), vec![693147, 0]);
}

#[test]
fn rank_weighs_nothing_beyond_the_table() {
    let index = rank_index(&[("a", "x y"), ("b", "y")]);
    let terms = vec!["Y".to_string(), "X".to_string(), "Z".to_string()];
    assert_eq!(weights_of(&index, &terms, &[5, 6]), vec![0, 6, 5]);
    assert_eq!(weights_of(&index, &terms, &[]), vec![0, 0, 0]);
    assert_eq!(weights_of(&index, &terms, &[5, 6, 7, 8]), vec![7, 6, 5]);
}

#[test]
fn rank_score_rounds_towards_zero() {
    let document = Document::from_text("a a b c c c c");
    let terms = vec!["A".to_string(), "B".to_string(), "D".to_string()];
    assert_eq!(score_of(&document, &terms, &vec![10, 1, 1000]), 3);
    assert_eq!(score_of(&document, &terms, &vec![-10, -1, 1000]), -3);
    assert_eq!(score_of(&document, &terms, &vec![3, 0, 0]), 0);
    assert_eq!(score_of(&document, &terms, &vec![-3, 0, 0]), 0);
    assert_eq!(score_of(&document, &terms, &vec![7, -14, 0]), 0);
    assert_eq!(score_of(&Document::new(), &terms, &vec![7, 7, 7]), 0);
    assert_eq!(score_of(&document, &Vec::new(), &Vec::new()), 0);
}

#[test]
fn rank_score_holds_the_largest_weights() {
    let document = Document::from_text("a a a");
    let terms = vec!["A".to_string()];
    assert_eq!(score_of(&document, &terms, &vec![i64::MAX]), i64::MAX);
    assert_eq!(score_of(&document, &terms, &vec![i64::MIN]), i64::MIN);
    let mixed = Document::from_text("a b");
    let both = vec!["A".to_string(), "B".to_string()];
    assert_eq!(score_of(&mixed, &both, &vec![i64::MAX, i64::MAX]), i64::MAX);
    assert_eq!(score_of(&mixed, &both, &vec![i64::MIN, i64::MIN]), i64::MIN);
    assert_eq!(score_of(&mixed, &both, &vec![i64::MIN, i64::MAX]), 0);
}

#[test]
fn rank_terms_ranks_for_given_terms() {
    let index = rank_index(&[("a", "x y"), ("b", "y y"), ("c", "z")]);
    let terms = vec!["Y".to_string()];
    let hits = rank_terms(&index, &terms, &[0, 0, 9, 0], 2);
    assert_eq!(rank_list(&hits), vec![("b".to_string(), 9), ("a".to_string(), 4)]);
    let none = rank_terms(&index, &Vec::new(), &[0, 0, 9, 0], 2);
    assert_eq!(rank_list(&none), vec![("a".to_string(), 0), ("b".to_string(), 0)]);
}

#[test]
fn rank_rarer_terms_weigh_more() {
    let index = rank_index(&[("1", "rare common"), ("2", "common"), ("3", "common"), ("4", "x")]);
    let table = rank_table(&index);
    for df in 1..table.len() {
        assert!(table[df - 1] > table[df]);
    }
    let terms = vec!["RARE".to_string(), "COMMON".to_string()];
    assert!(index.document_frequency("RARE") < index.document_frequency("COMMON"));
    let weights = weights_of(&index, &terms, &table);
    assert!(weights[0] > weights[1]);
    assert_eq!(weights, vec![693147, 0]);
}

#[test]
fn rank_is_decreasing_tells_a_falling_table() {
    assert!(is_decreasing(&[]));
    assert!(is_decreasing(&[5]));
    assert!(is_decreasing(&[5, 4, 0, -1, i64::MIN]));
    assert!(!is_decreasing(&[5, 5]));
    assert!(!is_decreasing(&[5, 4, 4, 3]));
    assert!(!is_decreasing(&[5, 4, 3, 4]));
    assert!(!is_decreasing(&[i64::MIN, i64::MAX]));
    for n in 1..40 {
        let table: Vec<i64> = (0..=n)
            .map(|df| ((n as f64 / (1.0 + df as f64)).ln() * RANK_UNIT).round() as i64)
            .collect();
        assert!(is_decreasing(&table));
        assert_eq!(table[n - 1], 0);
    }
}
