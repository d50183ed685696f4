//! Extracting the text of a markup document.
//!
//! The markup is parsed by the `xml` crate. The text of a document is the
//! character data between its tags, each piece followed by one space, so that
//! the last word of one piece and the first word of the next stay two tokens.

use vstd::prelude::*;
use vstd::string::StringExecFns;
use xml::reader::{EventReader, XmlEvent};
use crate::error::{ErrorKind, IndexError};
use crate::index::Source;

verus! {

/// The error with which the `xml` crate reports markup that it cannot parse.
#[verifier::external_type_specification]
#[verifier::external_body]
pub struct ExMarkupError(xml::reader::Error);

/// What the `xml` crate reads from `markup`: `None` where it reports an error,
/// else its events in order, each as `Some` of its text where it is an event
/// of character data and as `None` where it is any other event.
pub uninterp spec fn parsed_events(markup: Seq<u8>) -> Option<Seq<Option<Seq<char>>>>;

/// The views of `events`, one by one.
pub open spec fn event_views(events: Seq<Option<String>>) -> Seq<Option<Seq<char>>> {
    Seq::new(
        events.len(),
        |i: int|
            match events[i] {
                Some(text) => Some(text@),
                None => None,
            },
    )
}

/// The text of a document with the events `events`: the pieces of character
/// data in order, each followed by one space.
pub open spec fn joined(events: Seq<Option<Seq<char>>>) -> Seq<char>
    decreases events.len(),
{
    if events.len() == 0 {
        Seq::empty()
    } else {
        match events.last() {
            Some(text) => joined(events.drop_last()) + text + seq![' '],
            None => joined(events.drop_last()),
        }
    }
}

/// Iterates over `xml::reader::EventReader::new(markup)` to its end. The reader
/// yields events until the document ends or an error occurs; what it yields
/// depends on the bytes alone and is named `parsed_events(markup)`. An error
/// is handed on as it is; of the events, those of character data keep their
/// text.
#[verifier::external_body]
fn read_events(markup: &[u8]) -> (events: Result<Vec<Option<String>>, xml::reader::Error>)
    ensures
        match events {
            Ok(list) => parsed_events(markup@) == Some(event_views(list@)),
            Err(_) => parsed_events(markup@) is None,
        },
{
    let mut list = Vec::new();
    for event in EventReader::new(markup) {
        list.push(
            match event? {
                XmlEvent::Characters(text) => Some(text),
                _ => None,
            },
        );
    }
    Ok(list)
}

/// The text of a document with the events `events`.
pub fn join_characters(events: &Vec<Option<String>>) -> (text: String)
    ensures
        text@ == joined(event_views(events@)),
{
    let ghost all = event_views(events@);
    let mut text = String::new();
    let mut i: usize = 0;
    proof {
        assert(all.take(0) =~= Seq::empty());
    }
    while i < events.len()
        invariant
            i <= events@.len(),
            all == event_views(events@),
            text@ == joined(all.take(i as int)),
        decreases events.len() - i,
    {
        proof {
            assert(all.take(i + 1).drop_last() =~= all.take(i as int));
            assert(all.take(i + 1).last() == all[i as int]);
        }
        match &events[i] {
            Some(piece) => {
                text.append(piece.as_str());
                text.append(" ");
                proof {
                    reveal_strlit(" ");
                    assert(" "@ =~= seq![' ']);
                }
            },
            None => {},
        }
        i += 1;
    }
    proof {
        assert(all.take(i as int) =~= all);
    }
    text
}

/// The text of the document `markup`, which was read from `path`. Fails with
/// `ErrorKind::Extraction` exactly where the markup cannot be parsed.
pub fn extract_text(markup: &[u8], path: &str) -> (result: Result<String, IndexError>)
    ensures
        match result {
            Ok(text) => parsed_events(markup@) is Some && text@ == joined(
                parsed_events(markup@).unwrap(),
            ),
            Err(e) => parsed_events(markup@) is None && e.kind == ErrorKind::Extraction && e.path@
                == path@,
        },
{
    match read_events(markup) {
        Ok(events) => Ok(join_characters(&events)),
        Err(_) => Err(IndexError { kind: ErrorKind::Extraction, path: path.to_owned() }),
    }
}

/// The source that stands for the document `markup` at `path`: with its text,
/// or without one where the markup cannot be parsed.
pub fn source_of_markup(path: String, markup: &[u8]) -> (source: Source)
    ensures
        source@.0 == path@,
        source@.1 == match parsed_events(markup@) {
            Some(events) => Some(joined(events)),
            None => None,
        },
{
    match read_events(markup) {
        Ok(events) => Source { path, text: Some(join_characters(&events)) },
        Err(_) => Source { path, text: None },
    }
}

} // verus!
