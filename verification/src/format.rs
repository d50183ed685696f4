//! The persisted form of an index.
//!
//! An index is written as text, and the text as UTF-8. The first line holds
//! the number of documents. For each document there follows a line with the
//! number of its terms and its path, and after it one line for each term with
//! its count and the term. A path or a term is written as its length in
//! characters, a colon, and its characters as they are, so that it may hold
//! any character, a line break too.
//!
//! ```text
//! 2
//! 2 5:a.xml
//! 2 7:GLCLEAR
//! 1 4:VOID
//! 0 5:b.xml
//! ```

use vstd::prelude::*;
use vstd::utf8::{encode_utf8, encode_utf8_decode_utf8};
use crate::decimal::{digits, lemma_parse_nat_complete, lemma_parse_nat_sound, parse_nat};
use crate::document::{Entries, lemma_sum_bounds, sum};
use crate::index::{Docs, Index, valid_index};

verus! {

/// A path or a term as it is written: its length, a colon, its characters.
pub open spec fn field(s: Seq<char>) -> Seq<char> {
    digits(s.len()) + seq![':'] + s
}

/// The line of one term: its count, a space, the term, a line break.
pub open spec fn entry_line(entry: (Seq<char>, nat)) -> Seq<char> {
    digits(entry.1) + seq![' '] + field(entry.0) + seq!['\n']
}

/// The lines of the terms of one document.
pub open spec fn entry_lines(entries: Entries) -> Seq<char>
    decreases entries.len(),
{
    if entries.len() == 0 {
        Seq::empty()
    } else {
        entry_lines(entries.drop_last()) + entry_line(entries.last())
    }
}

/// The lines of one document: the number of its terms, a space, its path and
/// a line break, then the lines of its terms.
pub open spec fn block(doc: (Seq<char>, Entries)) -> Seq<char> {
    digits(doc.1.len()) + seq![' '] + field(doc.0) + seq!['\n'] + entry_lines(doc.1)
}

/// The lines of all documents.
pub open spec fn blocks(docs: Docs) -> Seq<char>
    decreases docs.len(),
{
    if docs.len() == 0 {
        Seq::empty()
    } else {
        blocks(docs.drop_last()) + block(docs.last())
    }
}

/// The text of an index: the number of its documents and a line break, then
/// the lines of its documents.
pub open spec fn index_text(docs: Docs) -> Seq<char> {
    digits(docs.len()) + seq!['\n'] + blocks(docs)
}

/// The persisted form of an index: its text in UTF-8.
pub open spec fn encoding(docs: Docs) -> Seq<u8> {
    encode_utf8(index_text(docs))
}

/// No length and no count in `docs` is more than `max`.
pub open spec fn bounded(docs: Docs, max: nat) -> bool {
    &&& docs.len() <= max
    &&& forall|i: int| 0 <= i < docs.len() ==> bounded_doc(#[trigger] docs[i], max)
}

/// No length and no count in `doc` is more than `max`.
pub open spec fn bounded_doc(doc: (Seq<char>, Entries), max: nat) -> bool {
    &&& doc.0.len() <= max
    &&& doc.1.len() <= max
    &&& forall|j: int| 0 <= j < doc.1.len() ==> bounded_entry(#[trigger] doc.1[j], max)
}

/// Neither the length of the term nor the count of `entry` is more than `max`.
pub open spec fn bounded_entry(entry: (Seq<char>, nat), max: nat) -> bool {
    entry.0.len() <= max && entry.1 <= max
}

/// What follows the character `mark` at the start of `s`.
pub open spec fn parse_mark(s: Seq<char>, mark: char) -> Option<Seq<char>> {
    if s.len() > 0 && s[0] == mark {
        Some(s.skip(1))
    } else {
        None
    }
}

/// The path or term at the start of `s`, with what follows it.
pub open spec fn parse_field(s: Seq<char>, max: nat) -> Option<(Seq<char>, Seq<char>)> {
    match parse_nat(s, max) {
        Some((n, after)) => match parse_mark(after, ':') {
            Some(rest) => if n <= rest.len() {
                Some((rest.take(n as int), rest.skip(n as int)))
            } else {
                None
            },
            None => None,
        },
        None => None,
    }
}

/// The line of one term at the start of `s`, with what follows it.
pub open spec fn parse_entry(s: Seq<char>, max: nat) -> Option<((Seq<char>, nat), Seq<char>)> {
    match parse_nat(s, max) {
        Some((count, after)) => match parse_mark(after, ' ') {
            Some(rest) => match parse_field(rest, max) {
                Some((term, tail)) => match parse_mark(tail, '\n') {
                    Some(next) => Some(((term, count), next)),
                    None => None,
                },
                None => None,
            },
            None => None,
        },
        None => None,
    }
}

/// The lines of `n` terms at the start of `s`, with what follows them.
pub open spec fn parse_entries(s: Seq<char>, n: nat, max: nat) -> Option<(Entries, Seq<char>), >
    decreases n,
{
    if n == 0 {
        Some((Seq::empty(), s))
    } else {
        match parse_entries(s, (n - 1) as nat, max) {
            Some((entries, rest)) => match parse_entry(rest, max) {
                Some((entry, next)) => Some((entries.push(entry), next)),
                None => None,
            },
            None => None,
        }
    }
}

/// The head line of a document at the start of `s`: the number of its terms
/// and its path, with what follows the line.
pub open spec fn parse_head(s: Seq<char>, max: nat) -> Option<((nat, Seq<char>), Seq<char>)> {
    match parse_nat(s, max) {
        Some((n, after)) => match parse_mark(after, ' ') {
            Some(rest) => match parse_field(rest, max) {
                Some((path, tail)) => match parse_mark(tail, '\n') {
                    Some(next) => Some(((n, path), next)),
                    None => None,
                },
                None => None,
            },
            None => None,
        },
        None => None,
    }
}

/// The lines of one document at the start of `s`, with what follows them.
pub open spec fn parse_block(s: Seq<char>, max: nat) -> Option<
    ((Seq<char>, Entries), Seq<char>),
> {
    match parse_head(s, max) {
        Some(((n, path), rest)) => match parse_entries(rest, n, max) {
            Some((entries, next)) => Some(((path, entries), next)),
            None => None,
        },
        None => None,
    }
}

/// The lines of `n` documents at the start of `s`, with what follows them.
pub open spec fn parse_blocks(s: Seq<char>, n: nat, max: nat) -> Option<(Docs, Seq<char>), >
    decreases n,
{
    if n == 0 {
        Some((Seq::empty(), s))
    } else {
        match parse_blocks(s, (n - 1) as nat, max) {
            Some((docs, rest)) => match parse_block(rest, max) {
                Some((doc, next)) => Some((docs.push(doc), next)),
                None => None,
            },
            None => None,
        }
    }
}

/// The documents that the text `s` holds, where it is the text of an index
/// none of whose lengths and counts is more than `max`.
pub open spec fn parse_index(s: Seq<char>, max: nat) -> Option<Docs, > {
    match parse_nat(s, max) {
        Some((n, after)) => match parse_mark(after, '\n') {
            Some(rest) => match parse_blocks(rest, n, max) {
                Some((docs, tail)) => if tail.len() == 0 {
                    Some(docs)
                } else {
                    None
                },
                None => None,
            },
            None => None,
        },
        None => None,
    }
}

/// A written path or term reads as itself.
pub proof fn lemma_field_complete(x: Seq<char>, rest: Seq<char>, max: nat)
    requires
        x.len() <= max,
    ensures
        parse_field(field(x) + rest, max) == Some((x, rest)),
{
    let after = seq![':'] + x + rest;
    lemma_parse_nat_complete(x.len(), after, max);
    assert(field(x) + rest =~= digits(x.len()) + after);
    let tail = after.skip(1);
    assert(tail =~= x + rest);
    assert(tail.take(x.len() as int) =~= x);
    assert(tail.skip(x.len() as int) =~= rest);
}

/// What reads as a path or term is that path or term as it is written.
pub proof fn lemma_field_sound(s: Seq<char>, max: nat)
    requires
        parse_field(s, max) is Some,
    ensures
        ({
            let (x, rest) = parse_field(s, max).unwrap();
            &&& x.len() <= max
            &&& s == field(x) + rest
            &&& rest.len() < s.len()
        }),
{
    lemma_parse_nat_sound(s, max);
    let (n, after) = parse_nat(s, max).unwrap();
    let tail = after.skip(1);
    assert(after =~= seq![':'] + tail);
    assert(tail =~= tail.take(n as int) + tail.skip(n as int));
    let (x, rest) = parse_field(s, max).unwrap();
    assert(s =~= field(x) + rest);
}

/// A written line of a term reads as that term with its count.
pub proof fn lemma_entry_complete(entry: (Seq<char>, nat), rest: Seq<char>, max: nat)
    requires
        bounded_entry(entry, max),
    ensures
        parse_entry(entry_line(entry) + rest, max) == Some((entry, rest)),
{
    let s = entry_line(entry) + rest;
    let after = seq![' '] + field(entry.0) + seq!['\n'] + rest;
    lemma_parse_nat_complete(entry.1, after, max);
    assert(s =~= digits(entry.1) + after);
    let tail = seq!['\n'] + rest;
    assert(after.skip(1) =~= field(entry.0) + tail);
    lemma_field_complete(entry.0, tail, max);
    assert(tail.skip(1) =~= rest);
}

/// What reads as the line of a term is that line as it is written.
pub proof fn lemma_entry_sound(s: Seq<char>, max: nat)
    requires
        parse_entry(s, max) is Some,
    ensures
        ({
            let (entry, rest) = parse_entry(s, max).unwrap();
            &&& bounded_entry(entry, max)
            &&& s == entry_line(entry) + rest
            &&& rest.len() < s.len()
        }),
{
    lemma_parse_nat_sound(s, max);
    let (count, after) = parse_nat(s, max).unwrap();
    let inner = after.skip(1);
    assert(after =~= seq![' '] + inner);
    lemma_field_sound(inner, max);
    let (term, tail) = parse_field(inner, max).unwrap();
    let next = tail.skip(1);
    assert(tail =~= seq!['\n'] + next);
    assert(s =~= entry_line((term, count)) + next);
}

/// The written lines of some terms read as those terms with their counts.
pub proof fn lemma_entries_complete(entries: Entries, rest: Seq<char>, max: nat)
    requires
        forall|j: int| 0 <= j < entries.len() ==> bounded_entry(#[trigger] entries[j], max),
    ensures
        parse_entries(entry_lines(entries) + rest, entries.len(), max) == Some((entries, rest)),
    decreases entries.len(),
{
    if entries.len() == 0 {
        assert(entry_lines(entries) + rest =~= rest);
        assert(entries =~= Seq::empty());
    } else {
        let front = entries.drop_last();
        let tail = entry_line(entries.last()) + rest;
        assert forall|j: int| 0 <= j < front.len() implies bounded_entry(
            #[trigger] front[j],
            max,
        ) by {
            assert(front[j] == entries[j]);
        }
        lemma_entries_complete(front, tail, max);
        assert(entry_lines(entries) + rest =~= entry_lines(front) + tail);
        lemma_entry_complete(entries.last(), rest, max);
        assert(front.push(entries.last()) =~= entries);
    }
}

/// What reads as the lines of `n` terms is those lines as they are written.
pub proof fn lemma_entries_sound(s: Seq<char>, n: nat, max: nat)
    requires
        parse_entries(s, n, max) is Some,
    ensures
        ({
            let (entries, rest) = parse_entries(s, n, max).unwrap();
            &&& entries.len() == n
            &&& forall|j: int| 0 <= j < entries.len() ==> bounded_entry(#[trigger] entries[j], max)
            &&& s == entry_lines(entries) + rest
            &&& rest.len() <= s.len()
        }),
    decreases n,
{
    if n == 0 {
        assert(s =~= entry_lines(Seq::empty()) + s);
    } else {
        lemma_entries_sound(s, (n - 1) as nat, max);
        let (front, mid) = parse_entries(s, (n - 1) as nat, max).unwrap();
        lemma_entry_sound(mid, max);
        let (entry, rest) = parse_entry(mid, max).unwrap();
        let entries = front.push(entry);
        assert(entries.drop_last() =~= front);
        assert(s =~= entry_lines(entries) + rest);
        assert forall|j: int| 0 <= j < entries.len() implies bounded_entry(
            #[trigger] entries[j],
            max,
        ) by {
            if j < front.len() {
                assert(entries[j] == front[j]);
            }
        }
    }
}

/// The written lines of a document read as that document.
pub proof fn lemma_block_complete(doc: (Seq<char>, Entries), rest: Seq<char>, max: nat)
    requires
        bounded_doc(doc, max),
    ensures
        parse_block(block(doc) + rest, max) == Some((doc, rest)),
{
    let s = block(doc) + rest;
    let body = entry_lines(doc.1) + rest;
    let after = seq![' '] + field(doc.0) + seq!['\n'] + body;
    lemma_parse_nat_complete(doc.1.len(), after, max);
    assert(s =~= digits(doc.1.len()) + after);
    let tail = seq!['\n'] + body;
    assert(after.skip(1) =~= field(doc.0) + tail);
    lemma_field_complete(doc.0, tail, max);
    assert(tail.skip(1) =~= body);
    lemma_entries_complete(doc.1, rest, max);
}

/// What reads as the lines of a document is those lines as they are written.
pub proof fn lemma_block_sound(s: Seq<char>, max: nat)
    requires
        parse_block(s, max) is Some,
    ensures
        ({
            let (doc, rest) = parse_block(s, max).unwrap();
            &&& bounded_doc(doc, max)
            &&& s == block(doc) + rest
            &&& rest.len() < s.len()
        }),
{
    lemma_parse_nat_sound(s, max);
    let (n, after) = parse_nat(s, max).unwrap();
    let inner = after.skip(1);
    assert(after =~= seq![' '] + inner);
    lemma_field_sound(inner, max);
    let (path, tail) = parse_field(inner, max).unwrap();
    let body = tail.skip(1);
    assert(tail =~= seq!['\n'] + body);
    lemma_entries_sound(body, n, max);
    let (entries, rest) = parse_entries(body, n, max).unwrap();
    assert(s =~= block((path, entries)) + rest);
}

/// The written lines of some documents read as those documents.
pub proof fn lemma_blocks_complete(docs: Docs, rest: Seq<char>, max: nat)
    requires
        forall|i: int| 0 <= i < docs.len() ==> bounded_doc(#[trigger] docs[i], max),
    ensures
        parse_blocks(blocks(docs) + rest, docs.len(), max) == Some((docs, rest)),
    decreases docs.len(),
{
    if docs.len() == 0 {
        assert(blocks(docs) + rest =~= rest);
        assert(docs =~= Seq::empty());
    } else {
        let front = docs.drop_last();
        let tail = block(docs.last()) + rest;
        assert forall|i: int| 0 <= i < front.len() implies bounded_doc(
            #[trigger] front[i],
            max,
        ) by {
            assert(front[i] == docs[i]);
        }
        lemma_blocks_complete(front, tail, max);
        assert(blocks(docs) + rest =~= blocks(front) + tail);
        lemma_block_complete(docs.last(), rest, max);
        assert(front.push(docs.last()) =~= docs);
    }
}

/// What reads as the lines of `n` documents is those lines as they are
/// written.
pub proof fn lemma_blocks_sound(s: Seq<char>, n: nat, max: nat)
    requires
        parse_blocks(s, n, max) is Some,
    ensures
        ({
            let (docs, rest) = parse_blocks(s, n, max).unwrap();
            &&& docs.len() == n
            &&& forall|i: int| 0 <= i < docs.len() ==> bounded_doc(#[trigger] docs[i], max)
            &&& s == blocks(docs) + rest
            &&& rest.len() <= s.len()
        }),
    decreases n,
{
    if n == 0 {
        assert(s =~= blocks(Seq::empty()) + s);
    } else {
        lemma_blocks_sound(s, (n - 1) as nat, max);
        let (front, mid) = parse_blocks(s, (n - 1) as nat, max).unwrap();
        lemma_block_sound(mid, max);
        let (doc, rest) = parse_block(mid, max).unwrap();
        let docs = front.push(doc);
        assert(docs.drop_last() =~= front);
        assert(s =~= blocks(docs) + rest);
        assert forall|i: int| 0 <= i < docs.len() implies bounded_doc(#[trigger] docs[i], max) by {
            if i < front.len() {
                assert(docs[i] == front[i]);
            }
        }
    }
}

/// Where the lines of `n` documents can be read, those of the first `k` of
/// them can, and give the first `k` documents.
pub proof fn lemma_blocks_prefix(s: Seq<char>, n: nat, k: nat, max: nat)
    requires
        parse_blocks(s, n, max) is Some,
        k <= n,
    ensures
        parse_blocks(s, k, max) is Some,
        parse_blocks(s, k, max).unwrap().0 == parse_blocks(s, n, max).unwrap().0.take(k as int),
    decreases n,
{
    lemma_blocks_sound(s, n, max);
    let docs = parse_blocks(s, n, max).unwrap().0;
    if k == n {
        assert(docs.take(k as int) =~= docs);
    } else {
        lemma_blocks_prefix(s, (n - 1) as nat, k, max);
        let front = parse_blocks(s, (n - 1) as nat, max).unwrap().0;
        lemma_blocks_sound(s, (n - 1) as nat, max);
        assert(front.take(k as int) =~= docs.take(k as int));
    }
}

/// The text of an index reads as that index.
pub proof fn lemma_index_complete(docs: Docs, max: nat)
    requires
        bounded(docs, max),
    ensures
        parse_index(index_text(docs), max) == Some(docs),
{
    let after = seq!['\n'] + blocks(docs);
    lemma_parse_nat_complete(docs.len(), after, max);
    assert(index_text(docs) =~= digits(docs.len()) + after);
    assert(after.skip(1) =~= blocks(docs) + Seq::<char>::empty());
    lemma_blocks_complete(docs, Seq::empty(), max);
}

/// What reads as an index is the text of that index.
pub proof fn lemma_index_sound(s: Seq<char>, max: nat)
    requires
        parse_index(s, max) is Some,
    ensures
        bounded(parse_index(s, max).unwrap(), max),
        index_text(parse_index(s, max).unwrap()) == s,
{
    lemma_parse_nat_sound(s, max);
    let (n, after) = parse_nat(s, max).unwrap();
    let rest = after.skip(1);
    assert(after =~= seq!['\n'] + rest);
    lemma_blocks_sound(rest, n, max);
    let (docs, tail) = parse_blocks(rest, n, max).unwrap();
    assert(s =~= index_text(docs));
}

/// Where the lines of some terms cannot be read, those of more terms cannot.
pub proof fn lemma_entries_none(s: Seq<char>, k: nat, n: nat, max: nat)
    requires
        parse_entries(s, k, max) is None,
        k <= n,
    ensures
        parse_entries(s, n, max) is None,
    decreases n,
{
    if k < n {
        lemma_entries_none(s, k, (n - 1) as nat, max);
    }
}

/// Where the lines of some documents cannot be read, those of more documents
/// cannot.
pub proof fn lemma_blocks_none(s: Seq<char>, k: nat, n: nat, max: nat)
    requires
        parse_blocks(s, k, max) is None,
        k <= n,
    ensures
        parse_blocks(s, n, max) is None,
    decreases n,
{
    if k < n {
        lemma_blocks_none(s, k, (n - 1) as nat, max);
    }
}

/// The lines of some terms are at least as long as any one of the terms, and
/// hold at least one character for each term.
pub proof fn lemma_entry_lines_len(entries: Entries)
    ensures
        entries.len() <= entry_lines(entries).len(),
        forall|j: int| 0 <= j < entries.len() ==> (#[trigger] entries[j]).0.len() <= entry_lines(
            entries,
        ).len(),
    decreases entries.len(),
{
    if entries.len() > 0 {
        let front = entries.drop_last();
        lemma_entry_lines_len(front);
        assert forall|j: int| 0 <= j < entries.len() implies (#[trigger] entries[j]).0.len()
            <= entry_lines(entries).len() by {
            if j < front.len() {
                assert(front[j] == entries[j]);
            }
        }
    }
}

/// The lines of some documents are at least as long as any one path, any one
/// term and any one list of terms among them, and hold at least one character
/// for each document.
pub proof fn lemma_blocks_len(docs: Docs)
    ensures
        docs.len() <= blocks(docs).len(),
        forall|i: int|
            0 <= i < docs.len() ==> {
                &&& (#[trigger] docs[i]).0.len() <= blocks(docs).len()
                &&& docs[i].1.len() <= blocks(docs).len()
                &&& forall|j: int|
                    0 <= j < docs[i].1.len() ==> (#[trigger] docs[i].1[j]).0.len() <= blocks(
                        docs,
                    ).len()
            },
    decreases docs.len(),
{
    if docs.len() > 0 {
        let front = docs.drop_last();
        lemma_blocks_len(front);
        lemma_entry_lines_len(docs.last().1);
        assert forall|i: int| 0 <= i < docs.len() implies {
            &&& (#[trigger] docs[i]).0.len() <= blocks(docs).len()
            &&& docs[i].1.len() <= blocks(docs).len()
            &&& forall|j: int|
                0 <= j < docs[i].1.len() ==> (#[trigger] docs[i].1[j]).0.len() <= blocks(
                    docs,
                ).len()
        } by {
            if i < front.len() {
                assert(front[i] == docs[i]);
            }
        }
    }
}

/// An index is bounded by the length of its text, as far as lengths go, and
/// by its largest count.
pub proof fn lemma_text_bounded(docs: Docs, max: nat)
    requires
        index_text(docs).len() <= max,
        forall|i: int, j: int|
            0 <= i < docs.len() && 0 <= j < docs[i].1.len() ==> (#[trigger] docs[i].1[j]).1 <= max,
    ensures
        bounded(docs, max),
{
    lemma_blocks_len(docs);
    assert forall|i: int| 0 <= i < docs.len() implies bounded_doc(#[trigger] docs[i], max) by {
        assert forall|j: int| 0 <= j < docs[i].1.len() implies bounded_entry(
            #[trigger] docs[i].1[j],
            max,
        ) by {}
    }
}

/// The total of every document of `docs` is no more than `max`.
pub open spec fn fits(docs: Docs, max: nat) -> bool {
    forall|i: int| 0 <= i < docs.len() ==> sum((#[trigger] docs[i]).1) <= max
}

/// The index that the text `s` holds: the documents that can be read from it,
/// where they form a valid index whose numbers fit the machine.
pub open spec fn readable(s: Seq<char>) -> Option<Docs> {
    match parse_index(s, usize::MAX as nat) {
        Some(docs) => if valid_index(docs) && fits(docs, usize::MAX as nat) {
            Some(docs)
        } else {
            None
        },
        None => None,
    }
}

/// A text holds an index exactly if it is the text of a well-formed index, and
/// then it holds that index.
pub proof fn lemma_readable(s: Seq<char>)
    requires
        s.len() <= usize::MAX,
    ensures
        readable(s) matches Some(docs) ==> index_text(docs) == s,
        forall|index: Index|
            #![trigger index.wf()]
            index.wf() && index_text(index@) == s ==> readable(s) == Some(index@),
{
    let max = usize::MAX as nat;
    if parse_index(s, max) is Some {
        lemma_index_sound(s, max);
    }
    assert forall|index: Index|
        #![trigger index.wf()]
        index.wf() && index_text(index@) == s implies readable(s) == Some(index@) by {
        let docs = index@;
        index.lemma_wf();
        assert forall|i: int, j: int|
            0 <= i < docs.len() && 0 <= j < docs[i].1.len() implies (#[trigger] docs[i].1[j]).1
            <= max by {
            lemma_sum_bounds(docs[i].1, j);
        }
        lemma_text_bounded(docs, max);
        lemma_index_complete(docs, max);
    }
}

/// Two well-formed indexes with the same persisted form are the same: what is
/// decoded from the encoding of an index is that index, with the same
/// documents in the same order, the same terms and the same counts.
pub proof fn lemma_round_trip(a: Index, b: Index)
    requires
        a.wf(),
        b.wf(),
        encoding(a@) == encoding(b@),
    ensures
        a@ == b@,
{
    encode_utf8_decode_utf8(index_text(a@));
    encode_utf8_decode_utf8(index_text(b@));
    let s = index_text(a@);
    let max = (usize::MAX + s.len()) as nat;
    a.lemma_wf();
    b.lemma_wf();
    assert forall|i: int, j: int|
        0 <= i < a@.len() && 0 <= j < a@[i].1.len() implies (#[trigger] a@[i].1[j]).1 <= max by {
        lemma_sum_bounds(a@[i].1, j);
    }
    assert forall|i: int, j: int|
        0 <= i < b@.len() && 0 <= j < b@[i].1.len() implies (#[trigger] b@[i].1[j]).1 <= max by {
        lemma_sum_bounds(b@[i].1, j);
    }
    lemma_text_bounded(a@, max);
    lemma_text_bounded(b@, max);
    lemma_index_complete(a@, max);
    lemma_index_complete(b@, max);
}

} // verus!
