//! Scoring a document against a query.
//!
//! The score of a document is the sum, over the different terms of the query,
//! of the term's frequency in the document times the term's inverse document
//! frequency. The term frequency is the term's count over the document's
//! total. The inverse document frequency of a term that `df` of `n` documents
//! hold is the natural logarithm of `n / (1 + df)`. It comes from a table that
//! the caller provides: `idf[df]`, as a fixed-point number in a unit of the
//! caller's choice. Scores come out in the same unit, rounded towards zero.

use vstd::arithmetic::div_mod::{lemma_div_is_ordered, lemma_div_multiples_vanish};
use vstd::prelude::*;
use crate::document::{
    Document, Entries, count_of, folded, has_term, lemma_count_at, place_of, sum, terms_of,
    valid_entries,
};
use crate::index::{Docs, Index, frequency, lemma_frequency_bounds, string_views};
use crate::lexer::{Lexer, lemma_tokens_step, tokens};
use crate::text::{chars_of, normalize, term_of};

verus! {

/// Paths with scores: the model of a ranking, and of what is ranked.
pub type Scores = Seq<(Seq<char>, int)>;

/// The different elements of `terms`, in the order of their first occurrence.
pub open spec fn distinct(terms: Seq<Seq<char>>) -> Seq<Seq<char>>
    decreases terms.len(),
{
    if terms.len() == 0 {
        Seq::empty()
    } else {
        let front = distinct(terms.drop_last());
        if front.contains(terms.last()) {
            front
        } else {
            front.push(terms.last())
        }
    }
}

/// The different terms of the query `query`.
pub open spec fn query_terms(query: Seq<char>) -> Seq<Seq<char>> {
    distinct(terms_of(query))
}

/// The inverse document frequency that the table `idf` gives to a term that
/// `df` documents hold: zero where the table does not reach that far.
pub open spec fn weight(idf: Seq<i64>, df: nat) -> int {
    if df < idf.len() {
        idf[df as int] as int
    } else {
        0
    }
}

/// The inverse document frequencies that `idf` gives to `terms` in `docs`.
pub open spec fn term_weights(docs: Docs, terms: Seq<Seq<char>>, idf: Seq<i64>) -> Seq<int> {
    Seq::new(terms.len(), |k: int| weight(idf, frequency(docs, terms[k])))
}

/// The sum, over the first `k` of `terms`, of the term's count in `entries`
/// times the term's weight.
pub open spec fn mass(entries: Entries, terms: Seq<Seq<char>>, weights: Seq<int>, k: nat) -> int
    decreases k,
{
    if k == 0 {
        0
    } else {
        mass(entries, terms, weights, (k - 1) as nat) + count_of(entries, terms[k - 1])
            * weights[k - 1]
    }
}

/// The sum, over the first `k` of `terms`, of the term's count in `entries`.
pub open spec fn covered(entries: Entries, terms: Seq<Seq<char>>, k: nat) -> nat
    decreases k,
{
    if k == 0 {
        0
    } else {
        covered(entries, terms, (k - 1) as nat) + count_of(entries, terms[k - 1])
    }
}

/// `a` over `b`, rounded towards zero, for a positive `b`.
pub open spec fn quotient(a: int, b: int) -> int {
    if a >= 0 {
        a / b
    } else {
        -((-a) / b)
    }
}

/// The score of a document with the entries `entries` for `terms` with the
/// weights `weights`: the sum of count times weight over the terms, over the
/// document's total; zero for a document without tokens.
pub open spec fn score(entries: Entries, terms: Seq<Seq<char>>, weights: Seq<int>) -> int {
    if sum(entries) == 0 {
        0
    } else {
        quotient(mass(entries, terms, weights, terms.len()), sum(entries) as int)
    }
}

/// Every document of `docs` with its score for `terms`, in the order of
/// `docs`.
pub open spec fn scored(docs: Docs, terms: Seq<Seq<char>>, idf: Seq<i64>) -> Scores {
    Seq::new(
        docs.len(),
        |i: int| (docs[i].0, score(docs[i].1, terms, term_weights(docs, terms, idf))),
    )
}

/// The different elements of a sequence are different from each other, and
/// they are the elements of the sequence.
pub proof fn lemma_distinct(terms: Seq<Seq<char>>)
    ensures
        distinct(terms).no_duplicates(),
        distinct(terms).len() <= terms.len(),
        forall|t: Seq<char>| distinct(terms).contains(t) <==> terms.contains(t),
    decreases terms.len(),
{
    if terms.len() > 0 {
        let rest = terms.drop_last();
        let front = distinct(rest);
        lemma_distinct(rest);
        assert forall|t: Seq<char>| distinct(terms).contains(t) <==> terms.contains(t) by {
            assert(distinct(rest).contains(t) <==> rest.contains(t));
            if terms.contains(t) {
                let k = choose|k: int| 0 <= k < terms.len() && terms[k] == t;
                if k < rest.len() {
                    assert(rest[k] == t);
                    assert(rest.contains(t));
                    let m = choose|m: int| 0 <= m < front.len() && front[m] == t;
                    assert(distinct(terms)[m] == t);
                } else if !front.contains(t) {
                    assert(distinct(terms)[front.len() as int] == t);
                }
            }
            if distinct(terms).contains(t) {
                let m = choose|m: int| 0 <= m < distinct(terms).len() && distinct(terms)[m] == t;
                if m < front.len() {
                    assert(front[m] == t);
                    assert(front.contains(t));
                    let k = choose|k: int| 0 <= k < rest.len() && rest[k] == t;
                    assert(terms[k] == t);
                } else {
                    assert(terms[terms.len() - 1] == t);
                }
            }
        }
    }
}

/// What valid entries count for a term after one more entry was appended.
pub proof fn lemma_count_push(entries: Entries, entry: (Seq<char>, nat), term: Seq<char>)
    requires
        valid_entries(entries.push(entry)),
    ensures
        valid_entries(entries),
        count_of(entries.push(entry), term) == count_of(entries, term) + if term == entry.0 {
            entry.1
        } else {
            0
        },
{
    let longer = entries.push(entry);
    let n = entries.len() as int;
    assert(longer[n] == entry);
    assert forall|i: int, j: int| 0 <= i < j < entries.len() implies (#[trigger] entries[i]).0 != (
    #[trigger] entries[j]).0 by {
        assert(longer[i] == entries[i] && longer[j] == entries[j]);
    }
    assert forall|i: int| 0 <= i < entries.len() implies (#[trigger] entries[i]).1 >= 1 by {
        assert(longer[i] == entries[i]);
    }
    if has_term(entries, term) {
        let i = place_of(entries, term);
        assert(longer[i] == entries[i]);
        lemma_count_at(longer, i);
        lemma_count_at(entries, i);
    } else if term == entry.0 {
        lemma_count_at(longer, n);
    } else if has_term(longer, term) {
        let i = place_of(longer, term);
        assert(entries[i].0 == term);
    }
}

/// What the first `k` of some different terms cover after one more entry was
/// appended to valid entries: what they covered before, and the count of the
/// new entry where its term is among them.
pub proof fn lemma_covered_push(
    entries: Entries,
    entry: (Seq<char>, nat),
    terms: Seq<Seq<char>>,
    k: nat,
)
    requires
        valid_entries(entries.push(entry)),
        terms.no_duplicates(),
        k <= terms.len(),
    ensures
        covered(entries.push(entry), terms, k) == covered(entries, terms, k) + if exists|j: int|
            0 <= j < k && terms[j] == entry.0 {
            entry.1
        } else {
            0
        },
    decreases k,
{
    if k > 0 {
        lemma_covered_push(entries, entry, terms, (k - 1) as nat);
        lemma_count_push(entries, entry, terms[k - 1]);
        if terms[k - 1] == entry.0 {
            if exists|j: int| 0 <= j < k - 1 && terms[j] == entry.0 {
                let j = choose|j: int| 0 <= j < k - 1 && terms[j] == entry.0;
                assert(terms[j] == terms[k - 1]);
            }
        } else if exists|j: int| 0 <= j < k && terms[j] == entry.0 {
            let j = choose|j: int| 0 <= j < k && terms[j] == entry.0;
            assert(j < k - 1);
        }
    }
}

/// Different terms cover no more of a document than it holds.
pub proof fn lemma_covered(entries: Entries, terms: Seq<Seq<char>>, k: nat)
    requires
        valid_entries(entries),
        terms.no_duplicates(),
        k <= terms.len(),
    ensures
        covered(entries, terms, k) <= sum(entries),
    decreases entries.len(), k,
{
    if entries.len() == 0 {
        if k > 0 {
            lemma_covered(entries, terms, (k - 1) as nat);
            assert(!has_term(entries, terms[k - 1]));
        }
    } else {
        let front = entries.drop_last();
        assert(front.push(entries.last()) =~= entries);
        lemma_covered_push(front, entries.last(), terms, k);
        lemma_count_push(front, entries.last(), entries.last().0);
        lemma_covered(front, terms, k);
    }
}

/// The mass of a document lies between the least and the greatest weight
/// that there is, times what the terms cover of it.
pub proof fn lemma_mass_bounds(entries: Entries, terms: Seq<Seq<char>>, weights: Seq<int>, k: nat)
    requires
        k <= terms.len() == weights.len(),
        forall|j: int| 0 <= j < weights.len() ==> i64::MIN <= #[trigger] weights[j] <= i64::MAX,
    ensures
        i64::MIN * covered(entries, terms, k) <= mass(entries, terms, weights, k) <= i64::MAX
            * covered(entries, terms, k),
    decreases k,
{
    if k > 0 {
        lemma_mass_bounds(entries, terms, weights, (k - 1) as nat);
        let c = count_of(entries, terms[k - 1]) as int;
        let w = weights[k - 1];
        assert(i64::MIN * c <= c * w <= i64::MAX * c) by (nonlinear_arith)
            requires
                c >= 0,
                i64::MIN <= w <= i64::MAX,
        ;
        let before = covered(entries, terms, (k - 1) as nat) as int;
        assert(i64::MIN * (before + c) == i64::MIN * before + i64::MIN * c) by (nonlinear_arith);
        assert(i64::MAX * (before + c) == i64::MAX * before + i64::MAX * c) by (nonlinear_arith);
    }
}

/// The ratio of which the inverse document frequency of `term` in `docs` is
/// the logarithm, as a fraction: the number of documents over one more than
/// the number of documents that hold the term.
pub open spec fn rarity(docs: Docs, term: Seq<char>) -> (nat, nat) {
    (docs.len(), 1 + frequency(docs, term))
}

/// Whether the fraction `a` is greater than the fraction `b`, both with a
/// positive denominator.
pub open spec fn greater(a: (nat, nat), b: (nat, nat)) -> bool {
    a.0 * b.1 > b.0 * a.1
}

/// The rarer term has the greater ratio of documents to one more than its
/// document frequency, and so, the logarithm being increasing, the greater
/// inverse document frequency.
pub proof fn lemma_rarity_decreases(docs: Docs, rare: Seq<char>, common: Seq<char>)
    requires
        frequency(docs, rare) < frequency(docs, common),
    ensures
        rarity(docs, rare).1 > 0,
        rarity(docs, common).1 > 0,
        greater(rarity(docs, rare), rarity(docs, common)),
{
    lemma_frequency_bounds(docs, common);
    let n = docs.len() as int;
    let x = 1 + frequency(docs, rare) as int;
    let y = 1 + frequency(docs, common) as int;
    assert(n * y > n * x) by (nonlinear_arith)
        requires
            n >= 1,
            y > x,
    ;
}

/// Whether every entry of the table `idf` is less than the one before it, as
/// the inverse document frequency is the less the more documents hold a term.
pub open spec fn decreasing(idf: Seq<i64>) -> bool {
    forall|i: int, j: int| 0 <= i < j < idf.len() ==> #[trigger] idf[i] > #[trigger] idf[j]
}

/// With a decreasing table that reaches far enough, the rarer term weighs
/// more.
pub proof fn lemma_weight_decreases(docs: Docs, idf: Seq<i64>, rare: Seq<char>, common: Seq<char>)
    requires
        decreasing(idf),
        docs.len() < idf.len(),
        frequency(docs, rare) < frequency(docs, common),
    ensures
        weight(idf, frequency(docs, rare)) > weight(idf, frequency(docs, common)),
{
    lemma_frequency_bounds(docs, common);
}

/// The numbers of `weights`, one by one.
pub open spec fn int_views(weights: Seq<i64>) -> Seq<int> {
    Seq::new(weights.len(), |k: int| weights[k] as int)
}

/// Whether every entry of `idf` is less than the one before it.
pub fn is_decreasing(idf: &[i64]) -> (result: bool)
    ensures
        result == decreasing(idf@),
{
    let mut i: usize = 1;
    while i < idf.len()
        invariant
            1 <= i,
            forall|a: int, b: int|
                0 <= a < b < i && b < idf@.len() ==> #[trigger] idf@[a] > #[trigger] idf@[b],
        decreases idf.len() - i,
    {
        if idf[i - 1] <= idf[i] {
            return false;
        }
        proof {
            assert forall|a: int, b: int|
                0 <= a < b < i + 1 && b < idf@.len() implies #[trigger] idf@[a]
                > #[trigger] idf@[b] by {
                if b == i && a < i - 1 {
                    assert(idf@[a] > idf@[i - 1]);
                }
            }
        }
        i += 1;
    }
    true
}

/// The different terms of `query`, in the order of their first occurrence.
pub fn parse_query(query: &str) -> (terms: Vec<String>)
    ensures
        string_views(terms@) == query_terms(query@),
        string_views(terms@).no_duplicates(),
{
    let chars = chars_of(query);
    let mut lexer = Lexer::new(chars.as_slice());
    let mut terms: Vec<String> = Vec::new();
    let ghost mut seen: Seq<Seq<char>> = Seq::empty();
    proof {
        assert(seen + tokens(query@) =~= tokens(query@));
        assert(folded(seen) =~= Seq::empty());
        assert(string_views(terms@) =~= Seq::empty());
    }
    loop
        invariant
            tokens(query@) == seen + tokens(lexer@),
            string_views(terms@) == distinct(folded(seen)),
        ensures
            tokens(query@) == seen,
        decreases lexer@.len(),
    {
        let ghost left = lexer@;
        proof {
            lemma_tokens_step(left);
        }
        match lexer.next_token() {
            None => {
                proof {
                    assert(seen + tokens(left) =~= seen);
                }
                break ;
            },
            Some(token) => {
                let term = term_of(token);
                let ghost known = string_views(terms@);
                let mut found = false;
                let mut k: usize = 0;
                while k < terms.len()
                    invariant
                        k <= terms@.len(),
                        known == string_views(terms@),
                        found <==> exists|j: int| 0 <= j < k && known[j] == term@,
                    decreases terms.len() - k,
                {
                    if terms[k] == term {
                        assert(known[k as int] == term@);
                        found = true;
                    }
                    k += 1;
                }
                if !found {
                    terms.push(term);
                    assert(string_views(terms@) =~= known.push(term@));
                }
                proof {
                    let next = seen.push(token@);
                    assert(folded(next).drop_last() =~= folded(seen));
                    assert(folded(next).last() == normalize(token@));
                    assert(seen + tokens(left) =~= next + tokens(lexer@));
                    seen = next;
                }
            },
        }
    }
    proof {
        lemma_distinct(terms_of(query@));
    }
    terms
}

/// The inverse document frequency that `idf` gives to each of `terms` in
/// `index`.
pub fn weights_of(index: &Index, terms: &Vec<String>, idf: &[i64]) -> (weights: Vec<i64>)
    ensures
        weights@.len() == terms@.len(),
        int_views(weights@) == term_weights(index@, string_views(terms@), idf@),
{
    let ghost wanted = term_weights(index@, string_views(terms@), idf@);
    let mut weights: Vec<i64> = Vec::new();
    let mut k: usize = 0;
    while k < terms.len()
        invariant
            k <= terms@.len(),
            weights@.len() == k,
            wanted == term_weights(index@, string_views(terms@), idf@),
            forall|j: int| 0 <= j < k ==> (#[trigger] weights@[j]) as int == wanted[j],
        decreases terms.len() - k,
    {
        let df = index.document_frequency(terms[k].as_str());
        assert(string_views(terms@)[k as int] == terms@[k as int]@);
        let w: i64 = if df < idf.len() {
            idf[df]
        } else {
            0
        };
        weights.push(w);
        k += 1;
    }
    assert(int_views(weights@) =~= wanted);
    weights
}

/// The score of `document` for the different terms `terms` with the weights
/// `weights`.
pub fn score_of(document: &Document, terms: &Vec<String>, weights: &Vec<i64>) -> (result: i64)
    requires
        document.wf(),
        string_views(terms@).no_duplicates(),
        weights@.len() == terms@.len(),
    ensures
        result == score(document@, string_views(terms@), int_views(weights@)),
{
    let ghost entries = document@;
    let ghost names = string_views(terms@);
    let ghost numbers = int_views(weights@);
    proof {
        document.lemma_wf();
    }
    let total = document.total_tokens();
    if total == 0 {
        return 0;
    }
    let mut acc: i128 = 0;
    let mut k: usize = 0;
    while k < terms.len()
        invariant
            k <= terms@.len() == weights@.len(),
            document.wf(),
            entries == document@,
            names == string_views(terms@),
            numbers == int_views(weights@),
            names.no_duplicates(),
            valid_entries(entries),
            sum(entries) == total,
            acc == mass(entries, names, numbers, k as nat),
        decreases terms.len() - k,
    {
        let count = document.count(terms[k].as_str());
        let w = weights[k];
        proof {
            assert(names[k as int] == terms@[k as int]@);
            assert(numbers[k as int] == w);
            lemma_covered(entries, names, k as nat);
            lemma_covered(entries, names, (k + 1) as nat);
            lemma_mass_bounds(entries, names, numbers, k as nat);
            lemma_mass_bounds(entries, names, numbers, (k + 1) as nat);
            let before = covered(entries, names, k as nat) as int;
            let after = covered(entries, names, (k + 1) as nat) as int;
            assert(i64::MIN * after >= i64::MIN * 0xffff_ffff_ffff_ffff && i64::MAX * after
                <= i64::MAX * 0xffff_ffff_ffff_ffff) by (nonlinear_arith)
                requires
                    0 <= after <= 0xffff_ffff_ffff_ffff,
            ;
            assert(i64::MIN * before >= i64::MIN * 0xffff_ffff_ffff_ffff && i64::MAX * before
                <= i64::MAX * 0xffff_ffff_ffff_ffff) by (nonlinear_arith)
                requires
                    0 <= before <= 0xffff_ffff_ffff_ffff,
            ;
            assert(i64::MIN * 0xffff_ffff_ffff_ffff <= count * w <= i64::MAX
                * 0xffff_ffff_ffff_ffff) by (nonlinear_arith)
                requires
                    0 <= count <= 0xffff_ffff_ffff_ffff,
                    i64::MIN <= w <= i64::MAX,
            ;
        }
        let product: i128 = (count as i128) * (w as i128);
        acc = acc + product;
        k += 1;
    }
    proof {
        lemma_covered(entries, names, k as nat);
        lemma_mass_bounds(entries, names, numbers, k as nat);
        let cov = covered(entries, names, k as nat) as int;
        assert(i64::MIN * total <= i64::MIN * cov && i64::MAX * cov <= i64::MAX * total)
            by (nonlinear_arith)
            requires
                0 <= cov <= total,
        ;
    }
    if acc >= 0 {
        proof {
            lemma_div_is_ordered(acc as int, i64::MAX * total, total as int);
            lemma_div_multiples_vanish(i64::MAX as int, total as int);
        }
        let q: u128 = (acc as u128) / (total as u128);
        q as i64
    } else {
        proof {
            lemma_div_is_ordered(-acc as int, 0x8000_0000_0000_0000 * total, total as int);
            lemma_div_multiples_vanish(0x8000_0000_0000_0000, total as int);
        }
        let m: u128 = (0 - acc) as u128;
        let q: u128 = m / (total as u128);
        (0 - (q as i128)) as i64
    }
}

} // verus!
