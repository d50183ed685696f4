//! Searching a persisted index: decoding it and ranking its documents.

use vstd::prelude::*;
use crate::error::{ErrorKind, IndexError};
use crate::format::encoding;
use crate::index::Index;
use crate::rank::{hit_views, is_ranking, rank, Hit};
use crate::score::{query_terms, scored};
use crate::store::decode;

verus! {

/// Whether `hits` is what searching `index` for `query` gives, with the table
/// `idf` of inverse document frequencies and cut off after `limit` entries:
/// nothing for an index without documents or a query without terms, else the
/// ranking of the documents of the index.
pub open spec fn answers(
    hits: Seq<Hit>,
    index: Index,
    query: Seq<char>,
    idf: Seq<i64>,
    limit: nat,
) -> bool {
    &&& index.wf()
    &&& query_terms(query).len() == 0 || index@.len() == 0 ==> hits.len() == 0
    &&& query_terms(query).len() > 0 ==> is_ranking(
        hit_views(hits),
        scored(index@, query_terms(query), idf),
        limit,
    )
}

/// Searches the index of which `bytes`, which were read from `origin`, are the
/// persisted form. `idf_for` is asked once, with the number of documents of
/// the index, for the table of inverse document frequencies. Fails with
/// `ErrorKind::Format` exactly where the bytes are the persisted form of no
/// index.
pub fn search<F>(bytes: &[u8], origin: &str, query: &str, limit: usize, idf_for: F) -> (result:
    Result<Vec<Hit>, IndexError>) where F: Fn(usize) -> Vec<i64>
    requires
        forall|n: usize| call_requires(idf_for, (n,)),
    ensures
        match result {
            Ok(hits) => exists|index: Index, n: usize, idf: Vec<i64>|
                {
                    &&& #[trigger] answers(hits@, index, query@, idf@, limit as nat)
                    &&& encoding(index@) == bytes@
                    &&& n == index@.len()
                    &&& #[trigger] call_ensures(idf_for, (n,), idf)
                },
            Err(e) => {
                &&& e.kind == ErrorKind::Format
                &&& e.path@ == origin@
                &&& forall|index: Index|
                    #![trigger index.wf()]
                    index.wf() ==> encoding(index@) != bytes@
            },
        },
{
    match decode(bytes, origin) {
        Ok(index) => {
            let n = index.len();
            let idf = idf_for(n);
            let hits = rank(&index, query, idf.as_slice(), limit);
            let result: Result<Vec<Hit>, IndexError> = Ok(hits);
            assert(answers(result.unwrap()@, index, query@, idf@, limit as nat));
            result
        },
        Err(e) => Err(e),
    }
}

} // verus!
