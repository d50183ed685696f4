//! Encoding an index into its persisted form, and decoding it again.

use vstd::prelude::*;
use vstd::string::StrSliceExecFns;
use vstd::utf8::{encode_utf8_decode_utf8, encode_utf8_valid_utf8};
use crate::decimal::{digits, parse_nat, read_number, write_number};
use crate::document::{Document, TermCount, entry_views};
use crate::error::{ErrorKind, IndexError};
use crate::format::{
    block, blocks, encoding, entry_line, entry_lines, field, index_text, lemma_blocks_none,
    lemma_blocks_prefix, lemma_blocks_sound, lemma_entries_none, lemma_readable, lemma_round_trip,
    parse_block, parse_blocks, parse_entries, parse_entry, parse_field, parse_head, parse_mark,
    readable,
};
use crate::index::Index;
use crate::text::{chars_of, string_of, utf8_text};

verus! {

/// Appends a path or a term to `out` as it is written.
fn write_field(out: &mut Vec<char>, s: &str)
    ensures
        final(out)@ == old(out)@ + field(s@),
{
    let mut chars = chars_of(s);
    write_number(out, chars.len());
    out.push(':');
    out.append(&mut chars);
    assert(out@ =~= old(out)@ + field(s@));
}

/// Appends the lines of `document` under `path` to `out`.
fn write_block(out: &mut Vec<char>, path: &str, document: &Document)
    ensures
        final(out)@ == old(out)@ + block((path@, document@)),
{
    let ghost start = out@;
    let ghost entries = document@;
    let n = document.unique_terms();
    write_number(out, n);
    out.push(' ');
    write_field(out, path);
    out.push('\n');
    let ghost head = out@;
    assert(head =~= start + (digits(n as nat) + seq![' '] + field(path@) + seq!['\n']));
    let mut j: usize = 0;
    assert(entries.take(0) =~= Seq::empty());
    assert(out@ =~= head + entry_lines(entries.take(0)));
    while j < n
        invariant
            j <= n,
            n == entries.len(),
            entries == document@,
            out@ == head + entry_lines(entries.take(j as int)),
        decreases n - j,
    {
        let entry = document.entry(j);
        let ghost before = out@;
        write_number(out, entry.count);
        out.push(' ');
        write_field(out, entry.term.as_str());
        out.push('\n');
        proof {
            assert(entries.take(j + 1).drop_last() =~= entries.take(j as int));
            assert(entries.take(j + 1).last() == entries[j as int]);
            assert(out@ =~= before + entry_line(entries[j as int]));
            assert(out@ =~= head + entry_lines(entries.take(j + 1)));
        }
        j += 1;
    }
    proof {
        assert(entries.take(j as int) =~= entries);
        assert(out@ =~= start + block((path@, document@)));
    }
}

/// The text of `index`.
pub fn encode_text(index: &Index) -> (text: Vec<char>)
    requires
        index.wf(),
    ensures
        text@ == index_text(index@),
{
    let ghost docs = index@;
    let n = index.len();
    let mut out: Vec<char> = Vec::new();
    write_number(&mut out, n);
    out.push('\n');
    let ghost head = out@;
    assert(head =~= digits(n as nat) + seq!['\n']);
    let mut i: usize = 0;
    assert(docs.take(0) =~= Seq::empty());
    assert(out@ =~= head + blocks(docs.take(0)));
    while i < n
        invariant
            i <= n,
            n == docs.len(),
            docs == index@,
            index.wf(),
            out@ == head + blocks(docs.take(i as int)),
        decreases n - i,
    {
        write_block(&mut out, index.path(i), index.document(i));
        proof {
            assert(docs.take(i + 1).drop_last() =~= docs.take(i as int));
            assert(docs.take(i + 1).last() == docs[i as int]);
            assert(out@ =~= head + blocks(docs.take(i + 1)));
        }
        i += 1;
    }
    proof {
        assert(docs.take(i as int) =~= docs);
    }
    out
}

/// The persisted form of `index`.
pub fn encode(index: &Index) -> (bytes: Vec<u8>)
    requires
        index.wf(),
    ensures
        bytes@ == encoding(index@),
{
    let text = encode_text(index);
    let written = string_of(text.as_slice());
    written.as_str().as_bytes_vec()
}

/// Reads the character `mark` at place `pos` of `text`.
fn read_mark(text: &[char], pos: usize, mark: char) -> (result: Option<usize>)
    requires
        pos <= text@.len(),
    ensures
        match result {
            Some(next) => next == pos + 1 && next <= text@.len() && parse_mark(
                text@.skip(pos as int),
                mark,
            ) == Some(text@.skip(next as int)),
            None => parse_mark(text@.skip(pos as int), mark) is None,
        },
{
    if pos < text.len() && text[pos] == mark {
        assert(text@.skip(pos as int)[0] == text@[pos as int]);
        assert(text@.skip(pos as int).skip(1) =~= text@.skip(pos + 1));
        Some(pos + 1)
    } else {
        if pos < text.len() {
            assert(text@.skip(pos as int)[0] == text@[pos as int]);
        }
        None
    }
}

/// Reads the path or term at place `pos` of `text`.
fn read_field(text: &[char], pos: usize) -> (result: Option<(String, usize)>)
    requires
        pos <= text@.len(),
    ensures
        match result {
            Some((x, next)) => pos < next <= text@.len() && parse_field(
                text@.skip(pos as int),
                usize::MAX as nat,
            ) == Some((x@, text@.skip(next as int))),
            None => parse_field(text@.skip(pos as int), usize::MAX as nat) is None,
        },
{
    let (n, after) = match read_number(text, pos) {
        Some(found) => found,
        None => {
            return None;
        },
    };
    let start = match read_mark(text, after, ':') {
        Some(next) => next,
        None => {
            return None;
        },
    };
    if n > text.len() - start {
        return None;
    }
    let x = string_of(vstd::slice::slice_subrange(text, start, start + n));
    proof {
        let rest = text@.skip(start as int);
        assert(rest.take(n as int) =~= text@.subrange(start as int, start + n));
        assert(rest.skip(n as int) =~= text@.skip(start + n));
    }
    Some((x, start + n))
}

/// Reads the line of one term at place `pos` of `text`.
fn read_entry(text: &[char], pos: usize) -> (result: Option<(TermCount, usize)>)
    requires
        pos <= text@.len(),
    ensures
        match result {
            Some((entry, next)) => pos < next <= text@.len() && parse_entry(
                text@.skip(pos as int),
                usize::MAX as nat,
            ) == Some(((entry.term@, entry.count as nat), text@.skip(next as int))),
            None => parse_entry(text@.skip(pos as int), usize::MAX as nat) is None,
        },
{
    let (count, after) = match read_number(text, pos) {
        Some(found) => found,
        None => {
            return None;
        },
    };
    let start = match read_mark(text, after, ' ') {
        Some(next) => next,
        None => {
            return None;
        },
    };
    let (term, tail) = match read_field(text, start) {
        Some(found) => found,
        None => {
            return None;
        },
    };
    match read_mark(text, tail, '\n') {
        Some(next) => Some((TermCount { term, count }, next)),
        None => None,
    }
}

/// Reads the lines of one document at place `pos` of `text`: its path and
/// its terms with their counts.
fn read_block(text: &[char], pos: usize) -> (result: Option<(String, Vec<TermCount>, usize)>)
    requires
        pos <= text@.len(),
    ensures
        match result {
            Some((path, entries, next)) => pos < next <= text@.len() && parse_block(
                text@.skip(pos as int),
                usize::MAX as nat,
            ) == Some(((path@, entry_views(entries@)), text@.skip(next as int))),
            None => parse_block(text@.skip(pos as int), usize::MAX as nat) is None,
        },
{
    let ghost max = usize::MAX as nat;
    let (n, after) = match read_number(text, pos) {
        Some(found) => found,
        None => {
            return None;
        },
    };
    let start = match read_mark(text, after, ' ') {
        Some(next) => next,
        None => {
            return None;
        },
    };
    let (path, tail) = match read_field(text, start) {
        Some(found) => found,
        None => {
            return None;
        },
    };
    let first = match read_mark(text, tail, '\n') {
        Some(next) => next,
        None => {
            return None;
        },
    };
    let ghost body = text@.skip(first as int);
    let mut entries: Vec<TermCount> = Vec::new();
    let mut at: usize = first;
    let mut j: usize = 0;
    assert(entry_views(entries@) =~= Seq::empty());
    while j < n
        invariant
            j <= n,
            pos < first <= at <= text@.len(),
            max == usize::MAX as nat,
            body == text@.skip(first as int),
            parse_head(text@.skip(pos as int), max) == Some(((n as nat, path@), body)),
            parse_entries(body, j as nat, max) == Some(
                (entry_views(entries@), text@.skip(at as int)),
            ),
        decreases n - j,
    {
        match read_entry(text, at) {
            Some((entry, next)) => {
                let ghost before = entry_views(entries@);
                entries.push(entry);
                assert(entry_views(entries@) =~= before.push((entry.term@, entry.count as nat)));
                at = next;
            },
            None => {
                proof {
                    lemma_entries_none(body, (j + 1) as nat, n as nat, max);
                }
                return None;
            },
        }
        j += 1;
    }
    Some((path, entries, at))
}

/// Reads the index that `text` holds.
pub fn decode_text(text: &[char]) -> (result: Option<Index>)
    ensures
        match result {
            Some(index) => index.wf() && readable(text@) == Some(index@),
            None => readable(text@) is None,
        },
{
    let ghost max = usize::MAX as nat;
    let (n, after) = match read_number(text, 0) {
        Some(found) => found,
        None => {
            assert(text@.skip(0) =~= text@);
            return None;
        },
    };
    assert(text@.skip(0) =~= text@);
    let first = match read_mark(text, after, '\n') {
        Some(next) => next,
        None => {
            return None;
        },
    };
    let ghost body = text@.skip(first as int);
    let mut index = Index::new();
    let mut at: usize = first;
    let mut i: usize = 0;
    while i < n
        invariant
            i <= n,
            first <= at <= text@.len(),
            max == usize::MAX as nat,
            body == text@.skip(first as int),
            parse_nat(text@, max) == Some((n as nat, text@.skip(after as int))),
            parse_mark(text@.skip(after as int), '\n') == Some(body),
            index.wf(),
            parse_blocks(body, i as nat, max) == Some((index@, text@.skip(at as int))),
        decreases n - i,
    {
        let ghost done = index@;
        let (path, entries, next) = match read_block(text, at) {
            Some(found) => found,
            None => {
                proof {
                    lemma_blocks_none(body, (i + 1) as nat, n as nat, max);
                }
                return None;
            },
        };
        let ghost doc = (path@, entry_views(entries@));
        proof {
            assert(parse_blocks(body, (i + 1) as nat, max) == Some(
                (done.push(doc), text@.skip(next as int)),
            ));
            lemma_blocks_sound(body, i as nat, max);
            if parse_blocks(body, n as nat, max) is Some {
                lemma_blocks_prefix(body, n as nat, (i + 1) as nat, max);
                lemma_blocks_sound(body, n as nat, max);
                let whole = parse_blocks(body, n as nat, max).unwrap().0;
                assert(whole.take(i + 1) == done.push(doc));
                assert(whole[i as int] == whole.take(i + 1)[i as int]);
                assert(whole[i as int] == doc);
                assert forall|k: int| 0 <= k < i implies whole[k] == done[k] by {
                    assert(whole[k] == whole.take(i + 1)[k]);
                }
            }
        }
        let document = match Document::from_entries(entries) {
            Some(document) => document,
            None => {
                return None;
            },
        };
        match index.insert(path, document) {
            Ok(_) => {},
            Err(_) => {
                proof {
                    if parse_blocks(body, n as nat, max) is Some {
                        let whole = parse_blocks(body, n as nat, max).unwrap().0;
                        let k = choose|k: int|
                            0 <= k < done.len() && (#[trigger] done[k]).0 == doc.0;
                        assert(whole[k].0 == whole[i as int].0);
                    }
                }
                return None;
            },
        }
        at = next;
        i += 1;
    }
    if at != text.len() {
        return None;
    }
    proof {
        index.lemma_wf();
    }
    Some(index)
}

/// Reads the index of which `bytes`, which were read from `origin`, are the
/// persisted form: what was encoded is what is decoded. Fails with
/// `ErrorKind::Format` exactly where they are the persisted form of no index.
pub fn decode(bytes: &[u8], origin: &str) -> (result: Result<Index, IndexError>)
    ensures
        forall|encoded: Index|
            #![trigger encoded.wf()]
            encoded.wf() && encoding(encoded@) == bytes@ ==> result is Ok && result.unwrap()@
                == encoded@,
        match result {
            Ok(index) => index.wf() && encoding(index@) == bytes@,
            Err(e) => {
                &&& e.kind == ErrorKind::Format
                &&& e.path@ == origin@
                &&& forall|index: Index|
                    #![trigger index.wf()]
                    index.wf() ==> encoding(index@) != bytes@
            },
        },
{
    let read = match utf8_text(bytes) {
        Some(text) => {
            let chars = chars_of(text);
            proof {
                assert(chars.len() <= usize::MAX);
                lemma_readable(chars@);
                assert forall|index: Index| #![trigger index.wf()] index.wf() && encoding(index@)
                    == bytes@ implies index_text(index@) == chars@ by {
                    encode_utf8_decode_utf8(index_text(index@));
                    encode_utf8_decode_utf8(chars@);
                }
            }
            decode_text(chars.as_slice())
        },
        None => {
            proof {
                assert forall|index: Index| #![trigger index.wf()] index.wf() implies encoding(
                    index@,
                ) != bytes@ by {
                    encode_utf8_valid_utf8(index_text(index@));
                }
            }
            None
        },
    };
    match read {
        Some(index) => {
            proof {
                encode_utf8_valid_utf8(index_text(index@));
                assert forall|encoded: Index|
                    #![trigger encoded.wf()]
                    encoded.wf() && encoding(encoded@) == bytes@ implies index@ == encoded@ by {
                    lemma_round_trip(encoded, index);
                }
            }
            Ok(index)
        },
        None => Err(IndexError { kind: ErrorKind::Format, path: origin.to_owned() }),
    }
}

} // verus!
