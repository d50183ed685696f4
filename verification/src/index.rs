//! The index: the term statistics of every document of a corpus, by path.
//!
//! An index is modelled by the sequence of its documents, each a path with the
//! document's entries.

use vstd::prelude::*;
use crate::document::{Document, Entries, has_term, sum, tally, terms_of, valid_entries};
use crate::error::{ErrorKind, IndexError};

verus! {

/// The model of an index: its documents in order, each a path with the
/// entries of the document.
pub type Docs = Seq<(Seq<char>, Entries)>;

/// The model of a corpus: for each document its path, and its text where it
/// was obtained.
pub type Sources = Seq<(Seq<char>, Option<Seq<char>>)>;

/// Whether `docs` holds a document under `path`.
pub open spec fn has_path(docs: Docs, path: Seq<char>) -> bool {
    exists|i: int| 0 <= i < docs.len() && (#[trigger] docs[i]).0 == path
}

/// The place of the document under `path`, where `docs` holds one.
pub open spec fn place_of_path(docs: Docs, path: Seq<char>) -> int {
    choose|i: int| 0 <= i < docs.len() && (#[trigger] docs[i]).0 == path
}

/// No path occurs twice.
pub open spec fn distinct_paths(docs: Docs) -> bool {
    forall|i: int, j: int|
        0 <= i < j < docs.len() ==> (#[trigger] docs[i]).0 != (#[trigger] docs[j]).0
}

/// No path occurs twice, and the entries of every document are valid.
pub open spec fn valid_index(docs: Docs) -> bool {
    &&& distinct_paths(docs)
    &&& forall|i: int| 0 <= i < docs.len() ==> valid_entries((#[trigger] docs[i]).1)
}

/// The index as a mapping from each path to the entries of its document.
pub open spec fn as_map(docs: Docs) -> Map<Seq<char>, Entries> {
    Map::new(
        |path: Seq<char>| has_path(docs, path),
        |path: Seq<char>| docs[place_of_path(docs, path)].1,
    )
}

/// The document frequency of `term`: the number of documents that hold it.
pub open spec fn frequency(docs: Docs, term: Seq<char>) -> nat
    decreases docs.len(),
{
    if docs.len() == 0 {
        0
    } else {
        frequency(docs.drop_last(), term) + if has_term(docs.last().1, term) {
            1nat
        } else {
            0nat
        }
    }
}

/// `j` is the first place at which a path of `docs` occurs for the second time.
pub open spec fn repeats_at(docs: Docs, j: int) -> bool {
    &&& 0 <= j < docs.len()
    &&& distinct_paths(docs.take(j))
    &&& has_path(docs.take(j), docs[j].0)
}

/// The documents that come of `sources`, each a path with the text that was
/// obtained for it or `None`: those with a text, in order, each with the
/// entries of its text.
pub open spec fn indexed(sources: Sources) -> Docs
    decreases sources.len(),
{
    if sources.len() == 0 {
        Seq::empty()
    } else {
        let front = indexed(sources.drop_last());
        match sources.last().1 {
            Some(text) => front.push((sources.last().0, tally(terms_of(text)))),
            None => front,
        }
    }
}

/// The paths of those of `sources` that have no text, in order.
pub open spec fn skipped(sources: Sources) -> Seq<Seq<char>>
    decreases sources.len(),
{
    if sources.len() == 0 {
        Seq::empty()
    } else {
        let front = skipped(sources.drop_last());
        match sources.last().1 {
            Some(text) => front,
            None => front.push(sources.last().0),
        }
    }
}

/// A document frequency is no more than the number of documents.
pub proof fn lemma_frequency_bounds(docs: Docs, term: Seq<char>)
    ensures
        frequency(docs, term) <= docs.len(),
    decreases docs.len(),
{
    if docs.len() > 0 {
        lemma_frequency_bounds(docs.drop_last(), term);
    }
}

/// Every source is either indexed or skipped.
pub proof fn lemma_indexed_len(sources: Sources)
    ensures
        indexed(sources).len() + skipped(sources).len() == sources.len(),
    decreases sources.len(),
{
    if sources.len() > 0 {
        lemma_indexed_len(sources.drop_last());
    }
}

/// What comes of the first `k` sources is the start of what comes of all.
pub proof fn lemma_indexed_prefix(sources: Sources, k: int)
    requires
        0 <= k <= sources.len(),
    ensures
        indexed(sources.take(k)).len() <= indexed(sources).len(),
        indexed(sources.take(k)) == indexed(sources).take(indexed(sources.take(k)).len() as int),
    decreases sources.len(),
{
    if k == sources.len() {
        assert(sources.take(k) =~= sources);
        assert(indexed(sources).take(indexed(sources).len() as int) =~= indexed(sources));
    } else {
        let front = sources.drop_last();
        assert(front.take(k) =~= sources.take(k));
        lemma_indexed_prefix(front, k);
        let n = indexed(sources.take(k)).len() as int;
        assert(indexed(sources).take(n) =~= indexed(front).take(n));
    }
}

/// Every indexed document comes of a source with a text: the place of one
/// such source is returned.
pub proof fn lemma_source_of(sources: Sources, j: int) -> (i: int)
    requires
        0 <= j < indexed(sources).len(),
    ensures
        0 <= i < sources.len(),
        sources[i].1 is Some,
        indexed(sources)[j] == (sources[i].0, tally(terms_of(sources[i].1.unwrap()))),
    decreases sources.len(),
{
    let front = sources.drop_last();
    if j < indexed(front).len() {
        let i = lemma_source_of(front, j);
        assert(front[i] == sources[i]);
        i
    } else {
        sources.len() - 1
    }
}

/// Every source with a text gives an indexed document: the place of one such
/// document is returned.
pub proof fn lemma_document_of(sources: Sources, i: int) -> (j: int)
    requires
        0 <= i < sources.len(),
        sources[i].1 is Some,
    ensures
        0 <= j < indexed(sources).len(),
        indexed(sources)[j] == (sources[i].0, tally(terms_of(sources[i].1.unwrap()))),
    decreases sources.len(),
{
    let front = sources.drop_last();
    if i < sources.len() - 1 {
        let j = lemma_document_of(front, i);
        assert(front[i] == sources[i]);
        j
    } else {
        indexed(front).len() as int
    }
}

/// Sources whose paths all differ give documents whose paths all differ, so
/// that indexing them does not fail.
pub proof fn lemma_indexed_distinct(sources: Sources)
    requires
        forall|a: int, b: int|
            0 <= a < b < sources.len() ==> (#[trigger] sources[a]).0 != (#[trigger] sources[b]).0,
    ensures
        distinct_paths(indexed(sources)),
    decreases sources.len(),
{
    if sources.len() > 0 {
        let front = sources.drop_last();
        assert forall|a: int, b: int| 0 <= a < b < front.len() implies (#[trigger] front[a]).0 != (
        #[trigger] front[b]).0 by {
            assert(front[a] == sources[a] && front[b] == sources[b]);
        }
        lemma_indexed_distinct(front);
        let docs = indexed(sources);
        assert forall|a: int, b: int| 0 <= a < b < docs.len() implies (#[trigger] docs[a]).0 != (
        #[trigger] docs[b]).0 by {
            if b < indexed(front).len() {
                assert(docs[a] == indexed(front)[a] && docs[b] == indexed(front)[b]);
            } else {
                let i = lemma_source_of(front, a);
                assert(front[i] == sources[i]);
                assert(docs[a] == indexed(front)[a]);
                assert(docs[b].0 == sources[sources.len() - 1].0);
            }
        }
    }
}

/// Where every source has a text, none is skipped.
pub proof fn lemma_none_skipped(sources: Sources)
    requires
        forall|k: int| 0 <= k < sources.len() ==> (#[trigger] sources[k]).1 is Some,
    ensures
        skipped(sources) == Seq::<Seq<char>>::empty(),
    decreases sources.len(),
{
    if sources.len() > 0 {
        let front = sources.drop_last();
        assert forall|k: int| 0 <= k < front.len() implies (#[trigger] front[k]).1 is Some by {
            assert(front[k] == sources[k]);
        }
        lemma_none_skipped(front);
    }
}

/// Where the text of exactly one of some sources with different paths could
/// not be obtained, indexing them does not fail: all the others are indexed,
/// and the path of that one is recorded.
pub proof fn lemma_one_failure(sources: Sources, i: int)
    requires
        0 <= i < sources.len(),
        sources[i].1 is None,
        forall|k: int| 0 <= k < sources.len() && k != i ==> (#[trigger] sources[k]).1 is Some,
        forall|a: int, b: int|
            0 <= a < b < sources.len() ==> (#[trigger] sources[a]).0 != (#[trigger] sources[b]).0,
    ensures
        distinct_paths(indexed(sources)),
        indexed(sources).len() == sources.len() - 1,
        skipped(sources) == seq![sources[i].0],
    decreases sources.len(),
{
    lemma_indexed_distinct(sources);
    lemma_indexed_len(sources);
    let front = sources.drop_last();
    if i == sources.len() - 1 {
        assert forall|k: int| 0 <= k < front.len() implies (#[trigger] front[k]).1 is Some by {
            assert(front[k] == sources[k]);
        }
        lemma_none_skipped(front);
        assert(skipped(sources) =~= seq![sources[i].0]);
    } else {
        assert(front[i] == sources[i]);
        assert forall|k: int| 0 <= k < front.len() && k != i implies (#[trigger] front[k]).1
            is Some by {
            assert(front[k] == sources[k]);
        }
        assert forall|a: int, b: int| 0 <= a < b < front.len() implies (#[trigger] front[a]).0 != (
        #[trigger] front[b]).0 by {
            assert(front[a] == sources[a] && front[b] == sources[b]);
        }
        lemma_one_failure(front, i);
    }
}

/// Indexing the same sources in another order gives the same index, but for
/// the order of its documents: where two runs of sources hold the same
/// sources and neither holds a path twice among those with a text, what comes
/// of them maps the same paths to the same entries.
pub proof fn lemma_order_independent(a: Sources, b: Sources)
    requires
        forall|x: (Seq<char>, Option<Seq<char>>)| a.contains(x) <==> b.contains(x),
        distinct_paths(indexed(a)),
        distinct_paths(indexed(b)),
    ensures
        as_map(indexed(a)) == as_map(indexed(b)),
{
    lemma_same_documents(a, b);
    lemma_same_documents(b, a);
    assert(as_map(indexed(a)) =~= as_map(indexed(b)));
}

/// Where `b` holds every source of `a`, and no path twice among those with a
/// text, every path that `a` indexes `b` indexes too, with the same entries.
proof fn lemma_same_documents(a: Sources, b: Sources)
    requires
        forall|x: (Seq<char>, Option<Seq<char>>)| a.contains(x) ==> b.contains(x),
        distinct_paths(indexed(a)),
        distinct_paths(indexed(b)),
    ensures
        forall|path: Seq<char>|
            has_path(indexed(a), path) ==> has_path(indexed(b), path) && as_map(indexed(a))[path]
                == as_map(indexed(b))[path],
{
    assert forall|path: Seq<char>| has_path(indexed(a), path) implies has_path(indexed(b), path)
        && as_map(indexed(a))[path] == as_map(indexed(b))[path] by {
        let j = place_of_path(indexed(a), path);
        let i = lemma_source_of(a, j);
        assert(a.contains(a[i]));
        let k = choose|k: int| 0 <= k < b.len() && b[k] == a[i];
        let m = lemma_document_of(b, k);
        assert(indexed(b)[m].0 == path);
        let found = place_of_path(indexed(b), path);
        assert(found == m);
    }
}

/// One document to be indexed: its path, and its text where it was obtained.
#[derive(Debug)]
pub struct Source {
    /// The path of the document.
    pub path: String,
    /// The text of the document, or `None` where it could not be obtained.
    pub text: Option<String>,
}

impl View for Source {
    type V = (Seq<char>, Option<Seq<char>>);

    open spec fn view(&self) -> (Seq<char>, Option<Seq<char>>) {
        (
            self.path@,
            match self.text {
                Some(text) => Some(text@),
                None => None,
            },
        )
    }
}

/// The views of `sources`, one by one.
pub open spec fn source_views(sources: Seq<Source>) -> Sources {
    Seq::new(sources.len(), |i: int| sources[i]@)
}

/// The views of `strings`, one by one.
pub open spec fn string_views(strings: Seq<String>) -> Seq<Seq<char>> {
    Seq::new(strings.len(), |i: int| strings[i]@)
}

/// One document of an index.
#[derive(Debug)]
struct Record {
    path: String,
    document: Document,
}

/// The term statistics of a corpus: one document for each path.
#[derive(Debug)]
pub struct Index {
    records: Vec<Record>,
}

/// What a run over a corpus yields: the index, and the paths of the documents
/// that were left out because no text was obtained for them.
#[derive(Debug)]
pub struct Build {
    /// The index of the documents that have a text.
    pub index: Index,
    /// The paths of the documents that have none, in the order of the corpus.
    pub skipped: Vec<String>,
}

impl View for Index {
    type V = Docs;

    /// The documents in the order in which they were inserted.
    closed spec fn view(&self) -> Docs {
        Seq::new(self.records@.len(), |i: int| (self.records@[i].path@, self.records@[i].document@))
    }
}

impl Index {
    /// The invariant of an index: no path twice, and every document
    /// well-formed.
    pub closed spec fn wf(&self) -> bool {
        &&& distinct_paths(self@)
        &&& forall|i: int|
            0 <= i < self.records@.len() ==> (#[trigger] self.records@[i]).document.wf()
    }

    /// A well-formed index is valid, and the totals of its documents fit the
    /// machine.
    pub proof fn lemma_wf(&self)
        requires
            self.wf(),
        ensures
            valid_index(self@),
            forall|i: int| 0 <= i < self@.len() ==> sum((#[trigger] self@[i]).1) <= usize::MAX,
    {
        assert forall|i: int| 0 <= i < self@.len() implies valid_entries((#[trigger] self@[i]).1)
            && sum(self@[i].1) <= usize::MAX by {
            self.records@[i].document.lemma_wf();
        }
    }

    /// The empty index.
    pub fn new() -> (index: Self)
        ensures
            index.wf(),
            index@ == Docs::empty(),
    {
        let index = Index { records: Vec::new() };
        assert(index@ =~= Seq::empty());
        index
    }

    /// The number of documents.
    pub fn len(&self) -> (n: usize)
        ensures
            n == self@.len(),
    {
        self.records.len()
    }

    /// The path of the document at place `i`.
    pub fn path(&self, i: usize) -> (path: &str)
        requires
            i < self@.len(),
        ensures
            path@ == self@[i as int].0,
    {
        self.records[i].path.as_str()
    }

    /// The document at place `i`.
    pub fn document(&self, i: usize) -> (document: &Document)
        requires
            self.wf(),
            i < self@.len(),
        ensures
            document.wf(),
            document@ == self@[i as int].1,
    {
        &self.records[i].document
    }

    /// The place of the document under `path`, if the index holds one.
    pub fn position(&self, path: &str) -> (place: Option<usize>)
        ensures
            match place {
                Some(i) => i < self@.len() && self@[i as int].0 == path@,
                None => !has_path(self@, path@),
            },
    {
        let mut i: usize = 0;
        while i < self.records.len()
            invariant
                i <= self.records@.len(),
                forall|k: int| 0 <= k < i ==> (#[trigger] self@[k]).0 != path@,
            decreases self.records.len() - i,
        {
            if *self.records[i].path.as_str() == *path {
                return Some(i);
            }
            i += 1;
        }
        None
    }

    /// The document under `path`, if the index holds one.
    pub fn get(&self, path: &str) -> (document: Option<&Document>)
        requires
            self.wf(),
        ensures
            match document {
                Some(d) => d.wf() && has_path(self@, path@) && d@ == as_map(self@)[path@],
                None => !has_path(self@, path@),
            },
    {
        match self.position(path) {
            Some(i) => {
                proof {
                    let k = place_of_path(self@, path@);
                    assert(self@[k].0 == self@[i as int].0);
                }
                Some(&self.records[i].document)
            },
            None => None,
        }
    }

    /// Adds `document` under `path`, unless the index holds that path already.
    pub fn insert(&mut self, path: String, document: Document) -> (result: Result<(), IndexError>)
        requires
            old(self).wf(),
            document.wf(),
        ensures
            final(self).wf(),
            match result {
                Ok(_) => !has_path(old(self)@, path@) && final(self)@ == old(self)@.push(
                    (path@, document@),
                ),
                Err(e) => has_path(old(self)@, path@) && final(self)@ == old(self)@ && e.kind
                    == ErrorKind::DuplicateDocument && e.path@ == path@,
            },
    {
        match self.position(path.as_str()) {
            Some(_) => Err(IndexError { kind: ErrorKind::DuplicateDocument, path }),
            None => {
                let ghost before = self@;
                self.records.push(Record { path, document });
                proof {
                    assert(self@ =~= before.push((path@, document@)));
                    assert forall|i: int, j: int| 0 <= i < j < self@.len() implies (
                    #[trigger] self@[i]).0 != (#[trigger] self@[j]).0 by {
                        if j < before.len() {
                            assert(self@[i] == before[i] && self@[j] == before[j]);
                        } else {
                            assert(self@[i] == before[i]);
                        }
                    }
                }
                Ok(())
            },
        }
    }

    /// The number of documents that hold `term`.
    pub fn document_frequency(&self, term: &str) -> (n: usize)
        ensures
            n == frequency(self@, term@),
    {
        let mut n: usize = 0;
        let mut i: usize = 0;
        while i < self.records.len()
            invariant
                i <= self.records@.len(),
                n == frequency(self@.take(i as int), term@),
                n <= i,
            decreases self.records.len() - i,
        {
            proof {
                assert(self@.take(i + 1).drop_last() =~= self@.take(i as int));
            }
            if self.records[i].document.find(term).is_some() {
                n += 1;
            }
            i += 1;
        }
        proof {
            assert(self@.take(i as int) =~= self@);
        }
        n
    }
}

impl Build {
    /// The start of a run over a corpus: nothing indexed, and nothing skipped.
    pub fn new() -> (run: Self)
        ensures
            run.index.wf(),
            run.index@ == Docs::empty(),
            run.skipped@ == Seq::<String>::empty(),
            string_views(run.skipped@) == Seq::<Seq<char>>::empty(),
    {
        let run = Build { index: Index::new(), skipped: Vec::new() };
        assert(string_views(run.skipped@) =~= Seq::empty());
        run
    }

    /// Takes one more document into the run. A source with a text is indexed,
    /// unless its path is indexed already, which is an error and changes
    /// nothing. A source without a text is left out and its path recorded.
    pub fn add(&mut self, source: &Source) -> (result: Result<(), IndexError>)
        requires
            old(self).index.wf(),
        ensures
            final(self).index.wf(),
            match result {
                Ok(_) => match source@.1 {
                    Some(text) => {
                        &&& !has_path(old(self).index@, source@.0)
                        &&& final(self).index@ == old(self).index@.push(
                            (source@.0, tally(terms_of(text))),
                        )
                        &&& string_views(final(self).skipped@) == string_views(old(self).skipped@)
                    },
                    None => {
                        &&& final(self).index@ == old(self).index@
                        &&& string_views(final(self).skipped@) == string_views(
                            old(self).skipped@,
                        ).push(source@.0)
                    },
                },
                Err(e) => {
                    &&& source@.1 is Some
                    &&& has_path(old(self).index@, source@.0)
                    &&& e.kind == ErrorKind::DuplicateDocument
                    &&& e.path@ == source@.0
                    &&& final(self).index@ == old(self).index@
                    &&& string_views(final(self).skipped@) == string_views(old(self).skipped@)
                },
            },
    {
        match &source.text {
            Some(text) => {
                let document = Document::from_text(text.as_str());
                self.index.insert(source.path.clone(), document)
            },
            None => {
                let ghost before = string_views(self.skipped@);
                self.skipped.push(source.path.clone());
                assert(string_views(self.skipped@) =~= before.push(source@.0));
                Ok(())
            },
        }
    }
}

/// Indexes a corpus. A source without a text is left out and its path
/// recorded; a path that comes for the second time among the sources with a
/// text stops the run.
pub fn build(sources: &Vec<Source>) -> (result: Result<Build, IndexError>)
    ensures
        sources@.len() == 0 ==> result is Ok,
        match result {
            Ok(built) => {
                &&& built.index.wf()
                &&& built.index@ == indexed(source_views(sources@))
                &&& string_views(built.skipped@) == skipped(source_views(sources@))
                &&& built.index@.len() + built.skipped@.len() == sources@.len()
            },
            Err(e) => {
                &&& e.kind == ErrorKind::DuplicateDocument
                &&& exists|j: int|
                    repeats_at(indexed(source_views(sources@)), j) && e.path@ == indexed(
                        source_views(sources@),
                    )[j].0
            },
        },
{
    let ghost all = source_views(sources@);
    let mut run = Build::new();
    let mut i: usize = 0;
    proof {
        assert(all.take(0) =~= Seq::empty());
    }
    while i < sources.len()
        invariant
            i <= sources@.len(),
            all == source_views(sources@),
            run.index.wf(),
            run.index@ == indexed(all.take(i as int)),
            string_views(run.skipped@) == skipped(all.take(i as int)),
        decreases sources.len() - i,
    {
        let source = &sources[i];
        let ghost done = all.take(i as int);
        proof {
            assert(all.take(i + 1).drop_last() =~= done);
            assert(all.take(i + 1).last() == source@);
        }
        match run.add(source) {
            Ok(_) => {},
            Err(e) => {
                proof {
                    let whole = indexed(all);
                    let j = indexed(done).len() as int;
                    lemma_indexed_prefix(all, i as int);
                    lemma_indexed_prefix(all, i + 1);
                    assert(indexed(all.take(i + 1)) == indexed(done).push(
                        (source@.0, tally(terms_of(source@.1.unwrap()))),
                    ));
                    assert(whole.take(j + 1)[j] == whole[j]);
                    assert(whole.take(j) =~= indexed(done));
                    assert(repeats_at(whole, j));
                }
                return Err(e);
            },
        }
        i += 1;
    }
    proof {
        assert(all.take(i as int) =~= all);
        lemma_indexed_len(all);
    }
    Ok(run)
}

} // verus!
