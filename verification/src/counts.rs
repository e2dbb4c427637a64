//! A table of counts keyed by term, which remembers the order in which its
//! terms were first seen.

use vstd::prelude::*;
use vstd::hash_map::StringHashMap;
use vstd::multiset::Multiset;

verus! {

/// A list of terms with their counts as plain values.
pub open spec fn pairs_view(pairs: Seq<(String, usize)>) -> Seq<(Seq<char>, nat)> {
    Seq::new(pairs.len(), |i: int| (pairs[i].0@, pairs[i].1 as nat))
}

/// The terms of a list of terms with counts.
pub open spec fn keys_of(pairs: Seq<(Seq<char>, nat)>) -> Seq<Seq<char>> {
    Seq::new(pairs.len(), |i: int| pairs[i].0)
}

/// The table that a list of terms with counts gives: each listed term with
/// the count that it is listed with. Meant for a list without a term twice.
pub open spec fn table_of(pairs: Seq<(Seq<char>, nat)>) -> Map<Seq<char>, nat> {
    Map::new(
        |k: Seq<char>| keys_of(pairs).contains(k),
        |k: Seq<char>| pairs[keys_of(pairs).index_of(k)].1,
    )
}

/// In a list without a term twice, the table holds each pair as listed; and
/// listing one more term adds one entry to the table.
pub proof fn lemma_table_of(pairs: Seq<(Seq<char>, nat)>)
    requires
        keys_of(pairs).no_duplicates(),
    ensures
        table_of(pairs).dom().finite(),
        forall|i: int|
            0 <= i < pairs.len() ==> table_of(pairs).contains_key(#[trigger] pairs[i].0)
                && table_of(pairs)[pairs[i].0] == pairs[i].1,
        pairs.len() > 0 ==> table_of(pairs) == table_of(pairs.drop_last()).insert(
            pairs.last().0,
            pairs.last().1,
        ),
{
    let keys = keys_of(pairs);
    assert forall|i: int| 0 <= i < pairs.len() implies table_of(pairs).contains_key(
        #[trigger] pairs[i].0,
    ) && table_of(pairs)[pairs[i].0] == pairs[i].1 by {
        assert(keys[i] == pairs[i].0);
    }
    vstd::seq_lib::seq_to_set_is_finite(keys);
    if pairs.len() > 0 {
        let front = pairs.drop_last();
        let fkeys = keys_of(front);
        let want = table_of(front).insert(pairs.last().0, pairs.last().1);
        assert forall|k: Seq<char>| table_of(pairs).contains_key(k) <==> want.contains_key(k) by {
            if keys.contains(k) {
                let i = choose|i: int| 0 <= i < keys.len() && keys[i] == k;
                if i < front.len() {
                    assert(fkeys[i] == k);
                }
            }
        }
    }
}

/// The sum of the counts of a table.
pub open spec fn sum_of(table: Map<Seq<char>, nat>) -> nat {
    Multiset::from_map(table).len()
}

/// A new entry adds its count to the sum of a table.
pub proof fn lemma_sum_insert(table: Map<Seq<char>, nat>, k: Seq<char>, c: nat)
    requires
        table.dom().finite(),
        !table.contains_key(k),
    ensures
        sum_of(table.insert(k, c)) == sum_of(table) + c,
    decreases c,
{
    if c == 0 {
        assert(Multiset::from_map(table.insert(k, c)) =~= Multiset::from_map(table));
    } else {
        lemma_sum_insert(table, k, (c - 1) as nat);
        assert(Multiset::from_map(table.insert(k, c)) =~= Multiset::from_map(
            table.insert(k, (c - 1) as nat),
        ).insert(k));
    }
}

/// The sum of an empty table is zero.
pub proof fn lemma_sum_empty()
    ensures
        sum_of(Map::<Seq<char>, nat>::empty()) == 0,
{
    assert(Multiset::from_map(Map::<Seq<char>, nat>::empty()) =~= Multiset::empty());
}

/// Counts per term. Lookups go through a hash map from each term to its
/// position; the terms and their counts are kept in order of first insertion.
pub struct TermCounts {
    terms: Vec<String>,
    counts: Vec<usize>,
    slots: StringHashMap<usize>,
}

impl View for TermCounts {
    type V = Map<Seq<char>, nat>;

    /// The count recorded for each term that has an entry.
    closed spec fn view(&self) -> Map<Seq<char>, nat> {
        Map::new(
            |k: Seq<char>| self.slots@.contains_key(k),
            |k: Seq<char>| self.counts@[self.slots@[k] as int] as nat,
        )
    }
}

impl TermCounts {
    /// The terms that have an entry, in order of first insertion.
    pub closed spec fn terms(&self) -> Seq<Seq<char>> {
        Seq::new(self.terms@.len(), |i: int| self.terms@[i]@)
    }

    /// The positions, the terms and the counts agree with each other.
    pub closed spec fn wf(&self) -> bool {
        &&& self.terms@.len() == self.counts@.len()
        &&& forall|i: int|
            0 <= i < self.terms@.len() ==> self.slots@.contains_key(#[trigger] self.terms@[i]@)
                && self.slots@[self.terms@[i]@] == i
        &&& forall|k: Seq<char>| #[trigger]
            self.slots@.contains_key(k) ==> self.slots@[k] < self.terms@.len()
                && self.terms@[self.slots@[k] as int]@ == k
    }

    /// The count recorded for `term`, and 0 where it has no entry.
    pub open spec fn count(&self, term: Seq<char>) -> nat {
        if self@.contains_key(term) {
            self@[term]
        } else {
            0
        }
    }

    /// In a well-formed table no term is listed twice, the listed terms are
    /// exactly those with an entry, and there are finitely many.
    pub proof fn lemma_terms(&self)
        requires
            self.wf(),
        ensures
            self.terms().no_duplicates(),
            self@.dom().finite(),
            self@.dom().len() == self.terms().len(),
            forall|k: Seq<char>| self@.contains_key(k) <==> self.terms().contains(k),
    {
        let ts = self.terms();
        assert forall|k: Seq<char>| self@.contains_key(k) <==> ts.contains(k) by {
            if self@.contains_key(k) {
                assert(ts[self.slots@[k] as int] == k);
            }
        }
        assert(self@.dom() =~= ts.to_set());
        ts.unique_seq_to_set();
        vstd::seq_lib::seq_to_set_is_finite(ts);
    }

    /// A table without entries.
    pub fn new() -> (table: Self)
        ensures
            table.wf(),
            table@ == Map::<Seq<char>, nat>::empty(),
            table.terms() == Seq::<Seq<char>>::empty(),
    {
        TermCounts { terms: Vec::new(), counts: Vec::new(), slots: StringHashMap::new() }
    }

    /// The number of terms that have an entry.
    pub fn len(&self) -> (n: usize)
        requires
            self.wf(),
        ensures
            n == self.terms().len(),
    {
        self.terms.len()
    }

    /// The term at position `i` in order of first insertion.
    pub fn term_at(&self, i: usize) -> (term: &String)
        requires
            self.wf(),
            i < self.terms().len(),
        ensures
            term@ == self.terms()[i as int],
    {
        &self.terms[i]
    }

    /// The count of the term at position `i`.
    pub fn count_at(&self, i: usize) -> (c: usize)
        requires
            self.wf(),
            i < self.terms().len(),
        ensures
            self@.contains_key(self.terms()[i as int]),
            c == self@[self.terms()[i as int]],
    {
        self.counts[i]
    }

    /// The count recorded for `term`, if it has an entry.
    pub fn get(&self, term: &str) -> (found: Option<usize>)
        requires
            self.wf(),
        ensures
            match found {
                Some(c) => self@.contains_key(term@) && c == self@[term@],
                None => !self@.contains_key(term@),
            },
    {
        match self.slots.get(term) {
            Some(slot) => Some(self.counts[*slot]),
            None => None,
        }
    }

    /// Adds one to the count of `term`, which starts at zero where it had no entry.
    pub fn increment(&mut self, term: String)
        requires
            old(self).wf(),
            old(self).count(term@) < usize::MAX,
        ensures
            final(self).wf(),
            final(self)@ == old(self)@.insert(term@, old(self).count(term@) + 1),
            final(self).terms() == (if old(self)@.contains_key(term@) {
                old(self).terms()
            } else {
                old(self).terms().push(term@)
            }),
    {
        let found = match self.slots.get(term.as_str()) {
            Some(slot) => Some(*slot),
            None => None,
        };
        match found {
            Some(slot) => {
                let c = self.counts[slot];
                self.counts.set(slot, c + 1);
            },
            None => {
                let slot = self.terms.len();
                self.slots.insert(term.clone(), slot);
                self.terms.push(term);
                self.counts.push(1);
            },
        }
    }

    /// Takes one off the count of `term`; a count of zero and a term without
    /// an entry stay as they are.
    pub fn decrement(&mut self, term: &str)
        requires
            old(self).wf(),
        ensures
            final(self).wf(),
            final(self).terms() == old(self).terms(),
            final(self)@ == (if old(self).count(term@) > 0 {
                old(self)@.insert(term@, (old(self).count(term@) - 1) as nat)
            } else {
                old(self)@
            }),
    {
        let found = match self.slots.get(term) {
            Some(slot) => Some(*slot),
            None => None,
        };
        match found {
            Some(slot) => {
                let c = self.counts[slot];
                if c > 0 {
                    self.counts.set(slot, c - 1);
                }
            },
            None => {},
        }
    }

    /// What `entries` lists: each term with its count, in order of first insertion.
    pub open spec fn listing(&self) -> Seq<(Seq<char>, nat)> {
        Seq::new(self.terms().len(), |i: int| (self.terms()[i], self@[self.terms()[i]]))
    }

    /// Each term with its count, in order of first insertion.
    pub fn entries(&self) -> (list: Vec<(String, usize)>)
        requires
            self.wf(),
        ensures
            list@.len() == self.listing().len(),
            forall|i: int|
                0 <= i < list@.len() ==> (#[trigger] list@[i]).0@ == self.listing()[i].0
                    && list@[i].1 == self.listing()[i].1,
    {
        let mut list: Vec<(String, usize)> = Vec::new();
        let mut i: usize = 0;
        while i < self.terms.len()
            invariant
                self.wf(),
                i <= self.terms@.len(),
                list@.len() == i,
                forall|a: int|
                    0 <= a < i ==> (#[trigger] list@[a]).0@ == self.listing()[a].0 && list@[a].1
                        == self.listing()[a].1,
            decreases self.terms@.len() - i,
        {
            list.push((self.terms[i].clone(), self.counts[i]));
            i += 1;
        }
        list
    }

    /// Whether `term` has an entry.
    pub fn contains(&self, term: &str) -> (found: bool)
        requires
            self.wf(),
        ensures
            found == self@.contains_key(term@),
    {
        self.slots.contains_key(term)
    }

    /// Gives `term`, which has no entry, an entry with the count `count`.
    pub fn insert_new(&mut self, term: String, count: usize)
        requires
            old(self).wf(),
            !old(self)@.contains_key(term@),
        ensures
            final(self).wf(),
            final(self)@ == old(self)@.insert(term@, count as nat),
            final(self).terms() == old(self).terms().push(term@),
    {
        let slot = self.terms.len();
        self.slots.insert(term.clone(), slot);
        self.terms.push(term);
        self.counts.push(count);
    }

    /// The table that `pairs` lists, unless it lists a term twice.
    pub fn from_pairs(pairs: &Vec<(String, usize)>) -> (made: Option<TermCounts>)
        ensures
            made is Some == keys_of(pairs_view(pairs@)).no_duplicates(),
            made matches Some(table) ==> table.wf() && table@ == table_of(pairs_view(pairs@))
                && table.terms() == keys_of(pairs_view(pairs@)),
    {
        let ghost all = pairs_view(pairs@);
        let mut table = TermCounts::new();
        let mut i: usize = 0;
        while i < pairs.len()
            invariant
                i <= pairs@.len(),
                all == pairs_view(pairs@),
                table.wf(),
                keys_of(all.take(i as int)).no_duplicates(),
                table@ == table_of(all.take(i as int)),
                table.terms() == keys_of(all.take(i as int)),
            decreases pairs@.len() - i,
        {
            let ghost done = all.take(i as int);
            let ghost now = all.take(i + 1);
            assert(keys_of(now) =~= keys_of(done).push(all[i as int].0));
            if table.contains(pairs[i].0.as_str()) {
                proof {
                    let j = choose|j: int|
                        0 <= j < keys_of(done).len() && keys_of(done)[j] == all[i as int].0;
                    assert(keys_of(all)[j] == keys_of(all)[i as int]);
                }
                return None;
            }
            proof {
                lemma_table_of(now);
            }
            table.insert_new(pairs[i].0.clone(), pairs[i].1);
            i += 1;
        }
        assert(all.take(i as int) == all);
        Some(table)
    }

    /// Whether the two tables count every term alike, a term without an
    /// entry counting as zero.
    pub fn same_counts(&self, other: &TermCounts) -> (same: bool)
        requires
            self.wf(),
            other.wf(),
        ensures
            same == (forall|t: Seq<char>| self.count(t) == other.count(t)),
    {
        if !self.covered_by(other) {
            return false;
        }
        other.covered_by(self)
    }

    /// Whether every term with an entry here counts the same in `other`.
    fn covered_by(&self, other: &TermCounts) -> (covered: bool)
        requires
            self.wf(),
            other.wf(),
        ensures
            covered == (forall|t: Seq<char>|
                self@.contains_key(t) ==> self.count(t) == other.count(t)),
    {
        proof {
            self.lemma_terms();
        }
        let mut i: usize = 0;
        while i < self.terms.len()
            invariant
                self.wf(),
                other.wf(),
                i <= self.terms@.len(),
                forall|a: int|
                    0 <= a < i ==> self.count(#[trigger] self.terms()[a]) == other.count(
                        self.terms()[a],
                    ),
                forall|k: Seq<char>| self@.contains_key(k) <==> self.terms().contains(k),
            decreases self.terms@.len() - i,
        {
            let ghost t = self.terms()[i as int];
            let here = self.counts[i];
            let there = match other.get(self.terms[i].as_str()) {
                Some(c) => c,
                None => 0,
            };
            if here != there {
                assert(self@.contains_key(t) && self.count(t) != other.count(t));
                return false;
            }
            i += 1;
        }
        assert forall|t: Seq<char>| self@.contains_key(t) implies self.count(t) == other.count(
            t,
        ) by {
            assert(self.count(self.terms()[self.slots@[t] as int]) == other.count(t));
        }
        true
    }

    /// A well-formed table is the table of its listing.
    pub proof fn lemma_listing(&self)
        requires
            self.wf(),
        ensures
            keys_of(self.listing()) == self.terms(),
            keys_of(self.listing()).no_duplicates(),
            self@ == table_of(self.listing()),
    {
        self.lemma_terms();
        let l = self.listing();
        assert(keys_of(l) =~= self.terms());
        lemma_table_of(l);
    }

    /// The sum of all counts, unless it is more than `usize::MAX`.
    pub fn sum(&self) -> (total: Option<usize>)
        requires
            self.wf(),
        ensures
            total matches Some(n) ==> n == sum_of(self@),
            total is None ==> sum_of(self@) > usize::MAX,
    {
        let ghost l = self.listing();
        proof {
            self.lemma_listing();
            lemma_sum_empty();
            assert(table_of(l.take(0)) =~= Map::<Seq<char>, nat>::empty());
        }
        let mut total: usize = 0;
        let mut i: usize = 0;
        while i < self.counts.len()
            invariant
                self.wf(),
                l == self.listing(),
                keys_of(l).no_duplicates(),
                self@ == table_of(l),
                i <= self.counts@.len(),
                self.counts@.len() == l.len(),
                total == sum_of(table_of(l.take(i as int))),
            decreases self.counts@.len() - i,
        {
            let ghost done = l.take(i as int);
            let ghost now = l.take(i + 1);
            proof {
                assert(now.drop_last() == done);
                lemma_table_of(done);
                lemma_table_of(now);
                assert(!table_of(done).contains_key(now.last().0));
                lemma_sum_insert(table_of(done), now.last().0, now.last().1);
            }
            total = match total.checked_add(self.counts[i]) {
                Some(n) => n,
                None => {
                    proof {
                        lemma_sum_grows(l, i + 1);
                        assert(l.take(l.len() as int) == l);
                    }
                    return None;
                },
            };
            i += 1;
        }
        assert(l.take(i as int) == l);
        Some(total)
    }
}

/// The sum over the first entries of a list is no more than the sum over all.
proof fn lemma_sum_grows(pairs: Seq<(Seq<char>, nat)>, n: int)
    requires
        keys_of(pairs).no_duplicates(),
        0 <= n <= pairs.len(),
    ensures
        sum_of(table_of(pairs.take(n))) <= sum_of(table_of(pairs.take(pairs.len() as int))),
    decreases pairs.len() - n,
{
    if n < pairs.len() {
        let done = pairs.take(n);
        let now = pairs.take(n + 1);
        assert(now.drop_last() == done);
        assert(keys_of(now) =~= keys_of(pairs).take(n + 1));
        assert(keys_of(done) =~= keys_of(pairs).take(n));
        lemma_table_of(done);
        lemma_table_of(now);
        assert(!table_of(done).contains_key(now.last().0)) by {
            if keys_of(done).contains(now.last().0) {
                let j = choose|j: int|
                    0 <= j < keys_of(done).len() && keys_of(done)[j] == now.last().0;
                assert(keys_of(pairs)[j] == keys_of(pairs)[n]);
            }
        }
        lemma_sum_insert(table_of(done), now.last().0, now.last().1);
        lemma_sum_grows(pairs, n + 1);
    }
}

} // verus!
