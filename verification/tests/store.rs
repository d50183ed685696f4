use docrank::decimal::{read_number, write_number};
use docrank::document::{Document, TermCount};
use docrank::error::ErrorKind;
use docrank::index::{build, Index, Source};
use docrank::store::{decode, decode_text, encode, encode_text};

fn store_contents(index: &Index) -> Vec<(String, Vec<(String, usize)>, usize)> {
    (0..index.len())
        .map(|i| {
            let document = index.document(i);
            let entries = (0..document.unique_terms())
                .map(|j| (document.entry(j).term.clone(), document.entry(j).count))
                .collect();
            (index.path(i).to_string(), entries, document.total_tokens())
        })
        .collect()
}

fn store_sample() -> Index {
    build(&vec![
        Source { path: "a.xml".to_string(), text: Some("glClear glClear void".to_string()) },
        Source { path: "b.xml".to_string(), text: Some("glBegin void".to_string()) },
    ])
    .unwrap()
    .index
}

fn store_rejects(text: &str) -> bool {
    match decode(text.as_bytes(), "index.txt") {
        Ok(_) => false,
        Err(e) => e.kind == ErrorKind::Format && e.path == "index.txt",
    }
}

#[test]
fn store_encode_writes_counts_lengths_and_text() {
    let bytes = encode(&store_sample());
    assert_eq!(
        String::from_utf8(bytes).unwrap(),
        "2\n2 5:a.xml\n2 7:GLCLEAR\n1 4:VOID\n2 5:b.xml\n1 7:GLBEGIN\n1 4:VOID\n"
    );
}

#[test]
fn store_encode_of_the_empty_index() {
    assert_eq!(encode(&Index::new()), b"0\n");
    assert_eq!(store_contents(&decode(b"0\n", "x").unwrap()), Vec::new());
}

#[test]
fn store_round_trip_gives_the_same_index() {
    let index = store_sample();
    let decoded = decode(&encode(&index), "index.txt").unwrap();
    assert_eq!(store_contents(&decoded), store_contents(&index));
    assert_eq!(decoded.len(), 2);
    assert_eq!(decoded.document(0).total_tokens(), 3);
    assert_eq!(decoded.document(0).unique_terms(), 2);
    assert_eq!(encode(&decoded), encode(&index));
}

#[test]
fn store_round_trip_keeps_any_character() {
    let mut index = Index::new();
    index
        .insert(
            "dir with space/na\u{ef}ve\n2:x.xml".to_string(),
            Document::from_text("\u{442}\u{435}\u{441}\u{442} : 12 \" \\ \u{1f600} \u{0}"),
        )
        .unwrap();
    index.insert(String::new(), Document::new()).unwrap();
    index
        .insert(
            "big".to_string(),
            Document::from_entries(vec![
                TermCount { term: String::new(), count: usize::MAX - 1 },
                TermCount { term: "1 1:A\n".to_string(), count: 1 },
            ])
            .unwrap(),
        )
        .unwrap();
    let bytes = encode(&index);
    let decoded = decode(&bytes, "index.txt").unwrap();
    assert_eq!(store_contents(&decoded), store_contents(&index));
    assert_eq!(decoded.document(2).total_tokens(), usize::MAX);
}

#[test]
fn store_text_and_bytes_agree() {
    let index = store_sample();
    let text: String = encode_text(&index).into_iter().collect();
    assert_eq!(text.as_bytes(), encode(&index).as_slice());
    let chars: Vec<char> = text.chars().collect();
    assert_eq!(store_contents(&decode_text(&chars).unwrap()), store_contents(&index));
    let broken: Vec<char> = "1\n".chars().collect();
    assert!(decode_text(&broken).is_none());
}

#[test]
fn store_decode_rejects_bytes_that_are_not_utf8() {
    let error = decode(&[b'0', b'\n', 0xff], "some/index").unwrap_err();
    assert_eq!(error.kind, ErrorKind::Format);
    assert_eq!(error.path, "some/index");
    assert!(decode(&[0xc3], "x").is_err());
}

#[test]
fn store_decode_rejects_malformed_text() {
    assert!(store_rejects(""));
    assert!(store_rejects("0"));
    assert!(store_rejects("\n"));
    assert!(store_rejects("x\n"));
    assert!(store_rejects("-1\n"));
    assert!(store_rejects(" 0\n"));
    assert!(store_rejects("0\n "));
    assert!(store_rejects("0\n\n"));
    assert!(store_rejects("1\n"));
    assert!(store_rejects("1\n0 1:a"));
    assert!(store_rejects("1\n0 2:a\n"));
    assert!(store_rejects("1\n0 1;a\n"));
    assert!(store_rejects("1\n0  1:a\n"));
    assert!(store_rejects("1\n0\t1:a\n"));
    assert!(store_rejects("1\n1 1:a\n"));
    assert!(store_rejects("1\n1 1:a\n1 1:A"));
    assert!(store_rejects("1\n1 1:a\n1 1:A\n1 1:B\n"));
    assert!(store_rejects("2\n0 1:a\n"));
    assert!(store_rejects("{\"a.xml\":{\"VOID\":1}}"));
    assert!(!store_rejects("1\n0 1:a\n"));
    assert!(!store_rejects("1\n1 1:a\n1 1:A\n"));
}

#[test]
fn store_decode_rejects_numbers_that_are_not_canonical() {
    assert!(store_rejects("00\n"));
    assert!(store_rejects("01\n0 1:a\n"));
    assert!(store_rejects("1\n00 1:a\n"));
    assert!(store_rejects("1\n0 01:a\n"));
    assert!(store_rejects("1\n1 1:a\n01 1:A\n"));
    assert!(store_rejects("+1\n0 1:a\n"));
    assert!(store_rejects("\u{661}\n0 1:a\n"));
}

#[test]
fn store_decode_rejects_numbers_that_do_not_fit() {
    assert!(store_rejects("1\n1 1:a\n340282366920938463463374607431768211456 1:A\n"));
    assert!(store_rejects("340282366920938463463374607431768211456\n"));
    assert!(store_rejects("1\n0 340282366920938463463374607431768211456:a\n"));
    let most = format!("1\n1 1:a\n{} 1:A\n", usize::MAX);
    assert!(!store_rejects(&most));
    let over = format!("1\n2 1:a\n{} 1:A\n1 1:B\n", usize::MAX);
    assert!(store_rejects(&over));
}

#[test]
fn store_decode_rejects_what_is_no_valid_index() {
    assert!(store_rejects("2\n0 1:a\n0 1:a\n"));
    assert!(store_rejects("1\n2 1:a\n1 1:A\n2 1:A\n"));
    assert!(store_rejects("1\n1 1:a\n0 1:A\n"));
    assert!(!store_rejects("2\n0 1:a\n0 1:b\n"));
    assert!(!store_rejects("2\n1 1:a\n1 1:A\n1 1:A\n1 1:A\n"));
}

#[test]
fn store_decode_reads_what_a_hand_wrote() {
    let index = decode("2\n2 3:doc\n3 2:OF\n1 6:COURSE\n0 0:\n".as_bytes(), "x").unwrap();
    assert_eq!(
        store_contents(&index),
        vec![
            ("doc".to_string(), vec![("OF".to_string(), 3), ("COURSE".to_string(), 1)], 4),
            (String::new(), Vec::new(), 0),
        ]
    );
}

#[test]
fn decimal_write_number_writes_decimal_notation() {
    let mut out = vec!['x'];
    write_number(&mut out, 0);
    out.push(',');
    write_number(&mut out, 7);
    out.push(',');
    write_number(&mut out, 10);
    out.push(',');
    write_number(&mut out, 1234567890);
    out.push(',');
    write_number(&mut out, usize::MAX);
    let written: String = out.into_iter().collect();
    assert_eq!(written, format!("x0,7,10,1234567890,{}", usize::MAX));
}

#[test]
fn decimal_read_number_reads_the_longest_run_of_digits() {
    let text: Vec<char> = "ab120:7 0x 007 ".chars().collect();
    assert_eq!(read_number(&text, 0), None);
    assert_eq!(read_number(&text, 2), Some((120, 5)));
    assert_eq!(read_number(&text, 3), Some((20, 5)));
    assert_eq!(read_number(&text, 4), Some((0, 5)));
    assert_eq!(read_number(&text, 5), None);
    assert_eq!(read_number(&text, 6), Some((7, 7)));
    assert_eq!(read_number(&text, 8), Some((0, 9)));
    assert_eq!(read_number(&text, 11), None);
    assert_eq!(read_number(&text, 12), None);
    assert_eq!(read_number(&text, 13), Some((7, 14)));
    assert_eq!(read_number(&text, 15), None);
    let most: Vec<char> = usize::MAX.to_string().chars().collect();
    assert_eq!(read_number(&most, 0), Some((usize::MAX, most.len())));
    let mut over = most.clone();
    over.push('0');
    assert_eq!(read_number(&over, 0), None);
    let next: Vec<char> = (usize::MAX as u128 + 1).to_string().chars().collect();
    assert_eq!(read_number(&next, 0), None);
}
