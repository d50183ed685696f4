//! The term statistics of one document.
//!
//! A document is modelled by the sequence of its terms with their counts, in
//! the order in which the terms first occurred.

use vstd::prelude::*;
use crate::lexer::{lemma_tokens_step, tokens, Lexer};
use crate::text::{chars_of, normalize, term_of};

verus! {

/// The model of a document: its terms with their counts, in the order in
/// which the terms first occurred.
pub type Entries = Seq<(Seq<char>, nat)>;

/// Whether `entries` holds `term`.
pub open spec fn has_term(entries: Entries, term: Seq<char>) -> bool {
    exists|i: int| 0 <= i < entries.len() && (#[trigger] entries[i]).0 == term
}

/// The place of `term` in `entries`, where `entries` holds it.
pub open spec fn place_of(entries: Entries, term: Seq<char>) -> int {
    choose|i: int| 0 <= i < entries.len() && (#[trigger] entries[i]).0 == term
}

/// The count that `entries` gives for `term`: zero where it does not hold it.
pub open spec fn count_of(entries: Entries, term: Seq<char>) -> nat {
    if has_term(entries, term) {
        entries[place_of(entries, term)].1
    } else {
        0
    }
}

/// The sum of all counts.
pub open spec fn sum(entries: Entries) -> nat
    decreases entries.len(),
{
    if entries.len() == 0 {
        0
    } else {
        sum(entries.drop_last()) + entries.last().1
    }
}

/// No term occurs twice, and no count is zero.
pub open spec fn valid_entries(entries: Entries) -> bool {
    &&& forall|i: int, j: int|
        0 <= i < j < entries.len() ==> (#[trigger] entries[i]).0 != (#[trigger] entries[j]).0
    &&& forall|i: int| 0 <= i < entries.len() ==> (#[trigger] entries[i]).1 >= 1
}

/// `entries` after one more occurrence of `term`.
pub open spec fn bump(entries: Entries, term: Seq<char>) -> Entries {
    if has_term(entries, term) {
        let i = place_of(entries, term);
        entries.update(i, (term, entries[i].1 + 1))
    } else {
        entries.push((term, 1))
    }
}

/// The entries of a document whose terms are `terms`, in that order.
pub open spec fn tally(terms: Seq<Seq<char>>) -> Entries
    decreases terms.len(),
{
    if terms.len() == 0 {
        Seq::empty()
    } else {
        bump(tally(terms.drop_last()), terms.last())
    }
}

/// How often `term` occurs in `terms`.
pub open spec fn occurrences(terms: Seq<Seq<char>>, term: Seq<char>) -> nat
    decreases terms.len(),
{
    if terms.len() == 0 {
        0
    } else {
        occurrences(terms.drop_last(), term) + if terms.last() == term {
            1nat
        } else {
            0nat
        }
    }
}

/// Each of `tokens`, case folded.
pub open spec fn folded(tokens: Seq<Seq<char>>) -> Seq<Seq<char>> {
    Seq::new(tokens.len(), |i: int| normalize(tokens[i]))
}

/// The terms of a text: its tokens, case folded.
pub open spec fn terms_of(text: Seq<char>) -> Seq<Seq<char>> {
    folded(tokens(text))
}

/// Where valid entries hold a term, their count for it is the one next to it.
pub proof fn lemma_count_at(entries: Entries, i: int)
    requires
        valid_entries(entries),
        0 <= i < entries.len(),
    ensures
        has_term(entries, entries[i].0),
        place_of(entries, entries[i].0) == i,
        count_of(entries, entries[i].0) == entries[i].1,
{
    let j = place_of(entries, entries[i].0);
    assert(entries[j].0 == entries[i].0);
}

/// One count is no more than the sum of all.
pub proof fn lemma_sum_bounds(entries: Entries, i: int)
    requires
        0 <= i < entries.len(),
    ensures
        entries[i].1 <= sum(entries),
    decreases entries.len(),
{
    if i < entries.len() - 1 {
        lemma_sum_bounds(entries.drop_last(), i);
    }
}

/// Raising one count by one raises the sum by one.
pub proof fn lemma_sum_update(entries: Entries, i: int, term: Seq<char>)
    requires
        0 <= i < entries.len(),
    ensures
        sum(entries.update(i, (term, entries[i].1 + 1))) == sum(entries) + 1,
    decreases entries.len(),
{
    let after = entries.update(i, (term, entries[i].1 + 1));
    if i < entries.len() - 1 {
        lemma_sum_update(entries.drop_last(), i, term);
        assert(after.drop_last() =~= entries.drop_last().update(i, (term, entries[i].1 + 1)));
    } else {
        assert(after.drop_last() =~= entries.drop_last());
    }
}

/// What one more occurrence of a term does to valid entries: they stay valid,
/// the term's count and the sum rise by one, and every other count stays.
pub proof fn lemma_bump(entries: Entries, term: Seq<char>)
    requires
        valid_entries(entries),
    ensures
        valid_entries(bump(entries, term)),
        sum(bump(entries, term)) == sum(entries) + 1,
        count_of(bump(entries, term), term) == count_of(entries, term) + 1,
        forall|other: Seq<char>|
            other != term ==> count_of(bump(entries, term), other) == count_of(entries, other),
        forall|other: Seq<char>|
            has_term(bump(entries, term), other) <==> other == term || has_term(entries, other),
{
    let after = bump(entries, term);
    if has_term(entries, term) {
        let i = place_of(entries, term);
        lemma_sum_update(entries, i, term);
        assert(after[i].0 == term);
        assert forall|k: int| 0 <= k < after.len() implies (#[trigger] after[k]).0
            == entries[k].0 by {}
        lemma_count_at(after, i);
    } else {
        assert(after.drop_last() =~= entries);
        assert(after[entries.len() as int].0 == term);
        assert forall|k: int| 0 <= k < entries.len() implies (#[trigger] after[k])
            == entries[k] by {}
        lemma_count_at(after, entries.len() as int);
    }
    assert forall|other: Seq<char>|
        has_term(after, other) <==> other == term || has_term(entries, other) by {
        if has_term(after, other) {
            let k = place_of(after, other);
            if other != term {
                assert(entries[k].0 == other);
            }
        }
        if has_term(entries, other) {
            let k = place_of(entries, other);
            assert(after[k].0 == other);
        }
    }
    assert forall|other: Seq<char>| other != term implies count_of(after, other) == count_of(
        entries,
        other,
    ) by {
        if has_term(entries, other) {
            let k = place_of(entries, other);
            assert(after[k] == entries[k]);
            lemma_count_at(after, k);
        }
    }
}

/// The entries of a document are valid, they count every term as often as it
/// occurs, and their counts add up to the number of terms.
pub proof fn lemma_tally(terms: Seq<Seq<char>>)
    ensures
        valid_entries(tally(terms)),
        sum(tally(terms)) == terms.len(),
        forall|term: Seq<char>| count_of(tally(terms), term) == occurrences(terms, term),
        forall|term: Seq<char>| has_term(tally(terms), term) <==> terms.contains(term),
    decreases terms.len(),
{
    if terms.len() > 0 {
        let front = terms.drop_last();
        lemma_tally(front);
        lemma_bump(tally(front), terms.last());
        assert forall|term: Seq<char>| count_of(tally(terms), term) == occurrences(
            terms,
            term,
        ) by {
            assert(count_of(tally(front), term) == occurrences(front, term));
        }
        assert forall|term: Seq<char>| has_term(tally(terms), term) <==> terms.contains(term) by {
            if terms.contains(term) {
                let k = choose|k: int| 0 <= k < terms.len() && terms[k] == term;
                if k < terms.len() - 1 {
                    assert(front[k] == term);
                }
            }
            if front.contains(term) {
                let k = choose|k: int| 0 <= k < front.len() && front[k] == term;
                assert(terms[k] == term);
            }
        }
    } else {
        assert forall|term: Seq<char>| !has_term(tally(terms), term) by {}
    }
}

/// The sum of the first `k` counts is no more than the sum of all.
pub proof fn lemma_sum_monotone(entries: Entries, k: int)
    requires
        0 <= k <= entries.len(),
    ensures
        sum(entries.take(k)) <= sum(entries),
    decreases entries.len() - k,
{
    if k < entries.len() {
        lemma_sum_monotone(entries, k + 1);
        assert(entries.take(k + 1).drop_last() =~= entries.take(k));
    } else {
        assert(entries.take(k) =~= entries);
    }
}

/// One term of a document with the number of times it occurs there.
#[derive(Debug)]
pub struct TermCount {
    /// The term.
    pub term: String,
    /// How often the document holds it; at least once.
    pub count: usize,
}

/// The term statistics of one document: each of its terms with its count, and
/// the number of tokens in all.
#[derive(Debug)]
pub struct Document {
    entries: Vec<TermCount>,
    total: usize,
}

/// The terms and counts of `entries`, one by one.
pub open spec fn entry_views(entries: Seq<TermCount>) -> Entries {
    Seq::new(entries.len(), |i: int| (entries[i].term@, entries[i].count as nat))
}

impl View for Document {
    type V = Entries;

    /// The terms with their counts, in the order of their first occurrence.
    closed spec fn view(&self) -> Entries {
        entry_views(self.entries@)
    }
}

impl Document {
    /// The invariant of a document: no term twice, no count of zero, and a
    /// total that is the sum of the counts.
    pub closed spec fn wf(&self) -> bool {
        &&& valid_entries(self@)
        &&& self.total == sum(self@)
    }

    /// A well-formed document has valid entries whose sum fits the machine.
    pub proof fn lemma_wf(&self)
        requires
            self.wf(),
        ensures
            valid_entries(self@),
            sum(self@) <= usize::MAX,
            forall|i: int| 0 <= i < self@.len() ==> (#[trigger] self@[i]).1 <= usize::MAX,
    {
    }

    /// The document of an empty text.
    pub fn new() -> (document: Self)
        ensures
            document.wf(),
            document@ == Entries::empty(),
    {
        let document = Document { entries: Vec::new(), total: 0 };
        assert(document@ =~= Seq::empty());
        document
    }

    /// The document with the entries `entries`, if they are valid and their
    /// counts add up to a number that fits the machine.
    pub fn from_entries(entries: Vec<TermCount>) -> (result: Option<Self>)
        ensures
            match result {
                Some(document) => document.wf() && document@ == entry_views(entries@),
                None => !valid_entries(entry_views(entries@)) || sum(entry_views(entries@))
                    > usize::MAX,
            },
    {
        let ghost all = entry_views(entries@);
        let mut total: usize = 0;
        let mut i: usize = 0;
        proof {
            assert(all.take(0) =~= Seq::empty());
        }
        while i < entries.len()
            invariant
                i <= entries@.len(),
                all == entry_views(entries@),
                valid_entries(all.take(i as int)),
                total == sum(all.take(i as int)),
            decreases entries.len() - i,
        {
            let count = entries[i].count;
            proof {
                assert(all.take(i + 1).drop_last() =~= all.take(i as int));
                assert(all.take(i + 1).last() == all[i as int]);
                lemma_sum_monotone(all, i + 1);
            }
            if count == 0 || count > usize::MAX - total {
                return None;
            }
            let mut j: usize = 0;
            while j < i
                invariant
                    j <= i < entries@.len(),
                    all == entry_views(entries@),
                    forall|k: int| 0 <= k < j ==> (#[trigger] all[k]).0 != all[i as int].0,
                decreases i - j,
            {
                if entries[j].term == entries[i].term {
                    assert(all[j as int].0 == all[i as int].0);
                    return None;
                }
                j += 1;
            }
            total = total + count;
            i += 1;
            proof {
                let next = all.take(i as int);
                assert forall|a: int, b: int| 0 <= a < b < next.len() implies (#[trigger] next[a]).0
                    != (#[trigger] next[b]).0 by {
                    if b < i - 1 {
                        assert(all.take(i - 1)[a] == next[a] && all.take(i - 1)[b] == next[b]);
                    } else {
                        assert(next[a] == all[a] && next[b] == all[i - 1]);
                    }
                }
                assert forall|a: int| 0 <= a < next.len() implies (#[trigger] next[a]).1 >= 1 by {
                    if a < i - 1 {
                        assert(all.take(i - 1)[a] == next[a]);
                    }
                }
            }
        }
        proof {
            assert(all.take(i as int) =~= all);
        }
        let document = Document { entries, total };
        assert(document@ =~= all);
        Some(document)
    }

    /// The document of `text`: its tokens are case folded and counted.
    pub fn from_chars(text: &[char]) -> (document: Self)
        ensures
            document.wf(),
            document@ == tally(terms_of(text@)),
            sum(document@) == tokens(text@).len(),
            forall|term: Seq<char>|
                count_of(document@, term) == occurrences(terms_of(text@), term),
    {
        let limit = text.len();
        let mut lexer = Lexer::new(text);
        let mut document = Document::new();
        let ghost mut seen: Seq<Seq<char>> = Seq::empty();
        proof {
            assert(seen + tokens(text@) =~= tokens(text@));
            assert(folded(seen) =~= Seq::empty());
        }
        loop
            invariant
                document.wf(),
                tokens(text@) == seen + tokens(lexer@),
                document@ == tally(folded(seen)),
                seen.len() + lexer@.len() <= limit,
            ensures
                tokens(text@) == seen,
            decreases lexer@.len(),
        {
            let ghost left = lexer@;
            proof {
                lemma_tokens_step(left);
                lemma_tally(folded(seen));
            }
            match lexer.next_token() {
                None => {
                    proof {
                        assert(seen + tokens(left) =~= seen);
                    }
                    break ;
                },
                Some(token) => {
                    let term = term_of(token);
                    document.add(term);
                    proof {
                        let next = seen.push(token@);
                        assert(folded(next).drop_last() =~= folded(seen));
                        assert(folded(next).last() == normalize(token@));
                        assert(seen + tokens(left) =~= next + tokens(lexer@));
                        seen = next;
                    }
                },
            }
        }
        proof {
            lemma_tally(terms_of(text@));
        }
        document
    }

    /// The document of `text`: its tokens are case folded and counted.
    pub fn from_text(text: &str) -> (document: Self)
        ensures
            document.wf(),
            document@ == tally(terms_of(text@)),
            sum(document@) == tokens(text@).len(),
            forall|term: Seq<char>|
                count_of(document@, term) == occurrences(terms_of(text@), term),
    {
        let chars = chars_of(text);
        Document::from_chars(chars.as_slice())
    }

    /// The number of tokens of the document.
    pub fn total_tokens(&self) -> (n: usize)
        requires
            self.wf(),
        ensures
            n == sum(self@),
    {
        self.total
    }

    /// The number of different terms of the document.
    pub fn unique_terms(&self) -> (n: usize)
        ensures
            n == self@.len(),
    {
        self.entries.len()
    }

    /// The term at place `i`, with its count.
    pub fn entry(&self, i: usize) -> (entry: &TermCount)
        requires
            i < self@.len(),
        ensures
            entry.term@ == self@[i as int].0,
            entry.count == self@[i as int].1,
    {
        &self.entries[i]
    }

    /// The place of `term` among the entries, if the document holds it.
    pub fn find(&self, term: &str) -> (place: Option<usize>)
        ensures
            match place {
                Some(i) => i < self@.len() && self@[i as int].0 == term@,
                None => !has_term(self@, term@),
            },
    {
        let mut i: usize = 0;
        while i < self.entries.len()
            invariant
                i <= self.entries@.len(),
                forall|k: int| 0 <= k < i ==> (#[trigger] self@[k]).0 != term@,
            decreases self.entries.len() - i,
        {
            if *self.entries[i].term.as_str() == *term {
                return Some(i);
            }
            i += 1;
        }
        None
    }

    /// How often the document holds `term`.
    pub fn count(&self, term: &str) -> (n: usize)
        requires
            self.wf(),
        ensures
            n == count_of(self@, term@),
    {
        match self.find(term) {
            Some(i) => {
                proof {
                    lemma_count_at(self@, i as int);
                }
                self.entries[i].count
            },
            None => 0,
        }
    }

    /// Counts one more occurrence of `term`.
    pub fn add(&mut self, term: String)
        requires
            old(self).wf(),
            sum(old(self)@) < usize::MAX,
        ensures
            final(self).wf(),
            final(self)@ == bump(old(self)@, term@),
    {
        let ghost before = self@;
        proof {
            lemma_bump(before, term@);
        }
        match self.find(term.as_str()) {
            Some(i) => {
                proof {
                    lemma_count_at(before, i as int);
                    lemma_sum_bounds(before, i as int);
                }
                let count = self.entries[i].count;
                self.entries.set(i, TermCount { term, count: count + 1 });
                self.total = self.total + 1;
                assert(self@ =~= bump(before, term@));
            },
            None => {
                self.entries.push(TermCount { term, count: 1 });
                self.total = self.total + 1;
                assert(self@ =~= bump(before, term@));
            },
        }
    }
}

} // verus!
