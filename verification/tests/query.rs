use docrank::error::ErrorKind;
use docrank::index::{build, Source};
use docrank::query::search;
use docrank::rank::rank;
use docrank::store::encode;

fn query_table(n: usize) -> Vec<i64> {
    (0..=n).map(|df| ((n as f64 / (1.0 + df as f64)).ln() * 1000.0).round() as i64).collect()
}

fn query_bytes() -> Vec<u8> {
    let sources = vec![
        Source { path: "gl/clear.xml".to_string(), text: Some("glClear buffers clear".to_string()) },
        Source { path: "gl/begin.xml".to_string(), text: Some("glBegin vertices".to_string()) },
        Source { path: "gl/end.xml".to_string(), text: Some("glEnd vertices clear".to_string()) },
        Source { path: "gl/flush.xml".to_string(), text: Some("glFlush".to_string()) },
    ];
    encode(&build(&sources).unwrap().index)
}

#[test]
fn query_search_ranks_the_decoded_index() {
    let hits = search(&query_bytes(), "index.txt", "clear buffers", 3, query_table).unwrap();
    let list: Vec<(String, i64)> = hits.into_iter().map(|hit| (hit.path, hit.score)).collect();
    assert_eq!(query_table(4), vec![1386, 693, 288, 0, -223]);
    assert_eq!(
        list,
        vec![
            ("gl/clear.xml".to_string(), (288 + 693) / 3),
            ("gl/end.xml".to_string(), 288 / 3),
            ("gl/begin.xml".to_string(), 0),
        ]
    );
}

#[test]
fn query_search_asks_for_the_table_of_the_number_of_documents() {
    let asked = std::cell::Cell::new(usize::MAX);
    let hits = search(&query_bytes(), "index.txt", "glflush", 1, |n| {
        asked.set(n);
        vec![0, 77]
    })
    .unwrap();
    assert_eq!(asked.get(), 4);
    assert_eq!(hits.len(), 1);
    assert_eq!(hits[0].path, "gl/flush.xml");
    assert_eq!(hits[0].score, 77);
}

#[test]
fn query_search_agrees_with_rank() {
    let bytes = query_bytes();
    let index = docrank::store::decode(&bytes, "index.txt").unwrap();
    let direct = rank(&index, "vertices CLEAR", &query_table(index.len()), 10);
    let found = search(&bytes, "index.txt", "vertices CLEAR", 10, query_table).unwrap();
    let a: Vec<(String, i64)> = direct.into_iter().map(|hit| (hit.path, hit.score)).collect();
    let b: Vec<(String, i64)> = found.into_iter().map(|hit| (hit.path, hit.score)).collect();
    assert_eq!(a, b);
    assert_eq!(a.len(), 4);
}

#[test]
fn query_search_hands_on_a_format_error() {
    let error = search(b"not an index", "dir/index.txt", "clear", 3, query_table).unwrap_err();
    assert_eq!(error.kind, ErrorKind::Format);
    assert_eq!(error.path, "dir/index.txt");
    let mut bytes = query_bytes();
    bytes.pop();
    assert!(search(&bytes, "x", "clear", 3, query_table).is_err());
}

#[test]
fn query_search_of_an_empty_query_or_index_is_empty() {
    assert!(search(&query_bytes(), "x", "  ", 3, query_table).unwrap().is_empty());
    assert!(search(b"0\n", "x", "clear", 3, query_table).unwrap().is_empty());
}
