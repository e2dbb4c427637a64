//! The index: per-document term frequencies and the table of document
//! frequencies that is kept in step with them.

use vstd::prelude::*;
use vstd::hash_map::StringHashMap;
use crate::counts::TermCounts;
use crate::chars::is_whitespace;
use crate::lexer::{
    lemma_leading, lemma_token_shape, lemma_tokens_skip_whitespace, tokenize, tokens, trimmed,
    Lexer,
};
use crate::time::Timestamp;
use crate::view::{
    containing, doc_of, lemma_add_wf, lemma_containing_push, lemma_remove_wf,
    lemma_term_counts_push, lemma_term_counts_total, term_counts, DocView, IndexView,
};

verus! {

/// The integers from which the weight of one token in one document is
/// computed: the term frequency is `occurrences / total_tokens`, taken as 0
/// for a document without tokens, and the inverse document frequency is the
/// decimal logarithm of `documents / document_frequency`.
#[derive(Clone, Copy, Debug, PartialEq, Eq, Structural)]
pub struct TermWeight {
    /// Occurrences of the token in the document.
    pub occurrences: usize,
    /// Number of tokens in the document.
    pub total_tokens: usize,
    /// Number of documents in the index.
    pub documents: usize,
    /// Number of documents recorded as holding the token, and 1 where none is.
    pub document_frequency: usize,
}

impl TermWeight {
    /// `self` is the weight of the token `t` in the document at position `i`.
    pub open spec fn weighs(self, index: IndexView, i: int, t: Seq<char>) -> bool {
        &&& self.occurrences == index.docs[i].1.occurrences(t)
        &&& self.total_tokens == index.docs[i].1.total_tokens
        &&& self.documents == index.docs.len()
        &&& self.document_frequency == if index.frequency(t) > 0 {
            index.frequency(t)
        } else {
            1
        }
    }
}

/// A document with the weight of each token of a query in it.
#[derive(Debug)]
pub struct Match {
    /// Path of the document.
    pub path: String,
    /// One weight per token of the query, in the order of the tokens.
    pub weights: Vec<TermWeight>,
}

impl Match {
    /// `self` is what a query with the tokens `query` finds of the document
    /// at position `i`.
    pub open spec fn matches(self, index: IndexView, i: int, query: Seq<Seq<char>>) -> bool {
        &&& self.path@ == index.docs[i].0
        &&& self.weights@.len() == query.len()
        &&& forall|j: int|
            0 <= j < query.len() ==> (#[trigger] self.weights@[j]).weighs(index, i, query[j])
    }
}

/// One indexed file.
pub struct Doc {
    tf: TermCounts,
    total_tokens: usize,
    last_modified: Timestamp,
}

impl View for Doc {
    type V = DocView;

    closed spec fn view(&self) -> DocView {
        DocView {
            tf: self.tf@,
            total_tokens: self.total_tokens as nat,
            last_modified: self.last_modified,
        }
    }
}

impl Doc {
    /// The table of term frequencies is consistent and the document is well formed.
    pub closed spec fn wf(&self) -> bool {
        self.tf.wf() && self@.wf()
    }

    /// A well-formed document has a well-formed view.
    pub proof fn lemma_wf(&self)
        requires
            self.wf(),
        ensures
            self@.wf(),
    {
    }

    /// The document that the text `content` makes.
    pub fn new(content: &[char], last_modified: Timestamp) -> (doc: Doc)
        ensures
            doc.wf(),
            doc@ == doc_of(tokens(content@), last_modified),
    {
        let mut lexer = Lexer::new(content);
        let mut tf = TermCounts::new();
        let mut count: usize = 0;
        let ghost mut seen: Seq<Seq<char>> = Seq::empty();
        assert(content@.len() == content.len());
        loop
            invariant
                content@.len() <= usize::MAX,
                tf.wf(),
                tf@ == term_counts(seen),
                count == seen.len(),
                count + lexer.content@.len() <= content@.len(),
                tokens(content@) == seen + tokens(lexer.content@),
            ensures
                tf.wf(),
                tf@ == term_counts(tokens(content@)),
                count == tokens(content@).len(),
            decreases lexer.content@.len(),
        {
            let ghost before = lexer.content@;
            proof {
                lemma_tokens_skip_whitespace(before);
                lemma_leading(before, |c: char| is_whitespace(c));
                if trimmed(before).len() > 0 {
                    lemma_token_shape(trimmed(before));
                }
            }
            match lexer.next_token() {
                None => {
                    assert(seen + tokens(before) == seen);
                    break ;
                },
                Some(token) => {
                    proof {
                        assert(lexer.content@.len() + 1 <= before.len());
                        lemma_term_counts_push(seen, token@);
                        assert(seen + (seq![token@] + tokens(lexer.content@)) == seen.push(token@)
                            + tokens(lexer.content@));
                        seen = seen.push(token@);
                    }
                    tf.increment(token);
                    count += 1;
                },
            }
        }
        proof {
            lemma_term_counts_total(tokens(content@));
        }
        Doc { tf, total_tokens: count, last_modified }
    }

    /// The document with the term frequencies `tf` and `total_tokens` tokens,
    /// unless a frequency is zero or the frequencies do not add up to
    /// `total_tokens`.
    pub fn from_counts(tf: TermCounts, total_tokens: usize, last_modified: Timestamp) -> (made:
        Option<Doc>)
        requires
            tf.wf(),
        ensures
            made is Some == (DocView {
                tf: tf@,
                total_tokens: total_tokens as nat,
                last_modified,
            }).wf(),
            made matches Some(doc) ==> doc.wf() && doc@ == (DocView {
                tf: tf@,
                total_tokens: total_tokens as nat,
                last_modified,
            }),
    {
        proof {
            tf.lemma_terms();
        }
        let mut i: usize = 0;
        while i < tf.len()
            invariant
                tf.wf(),
                i <= tf.terms().len(),
                forall|a: int| 0 <= a < i ==> tf@[#[trigger] tf.terms()[a]] >= 1,
            decreases tf.terms().len() - i,
        {
            if tf.count_at(i) == 0 {
                return None;
            }
            i += 1;
        }
        assert forall|t: Seq<char>| tf@.contains_key(t) implies #[trigger] tf@[t] >= 1 by {
            assert(tf.terms().contains(t));
        }
        match tf.sum() {
            Some(n) => {
                if n == total_tokens {
                    Some(Doc { tf, total_tokens, last_modified })
                } else {
                    None
                }
            },
            None => None,
        }
    }

    /// Number of tokens in the document.
    pub fn total_tokens(&self) -> (n: usize)
        ensures
            n == self@.total_tokens,
    {
        self.total_tokens
    }

    /// Modification time of the source when it was indexed.
    pub fn last_modified(&self) -> (t: Timestamp)
        ensures
            t == self@.last_modified,
    {
        self.last_modified
    }

    /// The table of term frequencies.
    pub closed spec fn tf(&self) -> TermCounts {
        self.tf
    }

    /// The table of term frequencies is consistent, and holds the term
    /// frequencies of the document.
    pub proof fn lemma_tf_wf(&self)
        requires
            self.wf(),
        ensures
            self.tf().wf(),
            self.tf()@ == self@.tf,
    {
    }

    /// Each token of the document with its occurrences, in order of first occurrence.
    pub fn term_frequencies(&self) -> (list: Vec<(String, usize)>)
        requires
            self.wf(),
        ensures
            list@.len() == self.tf().listing().len(),
            forall|i: int|
                0 <= i < list@.len() ==> (#[trigger] list@[i]).0@ == self.tf().listing()[i].0
                    && list@[i].1 == self.tf().listing()[i].1,
    {
        self.tf.entries()
    }

    /// Occurrences of `term` in the document, if it occurs.
    pub fn term_frequency(&self, term: &str) -> (found: Option<usize>)
        requires
            self.wf(),
        ensures
            match found {
                Some(c) => self@.tf.contains_key(term@) && c == self@.tf[term@],
                None => !self@.tf.contains_key(term@),
            },
    {
        self.tf.get(term)
    }
}

/// `slots` maps each of `paths` to its position, and nothing else.
spec fn slotted(paths: Seq<String>, slots: Map<Seq<char>, usize>) -> bool {
    &&& forall|i: int|
        0 <= i < paths.len() ==> slots.contains_key(#[trigger] paths[i]@) && slots[paths[i]@] == i
    &&& forall|k: Seq<char>| #[trigger]
        slots.contains_key(k) ==> slots[k] < paths.len() && paths[slots[k] as int]@ == k
}

/// Takes the path at position `at` out of `paths` and of `slots`, and moves
/// the positions of the paths behind it down by one.
fn unslot(paths: &mut Vec<String>, slots: &mut StringHashMap<usize>, at: usize)
    requires
        slotted(old(paths)@, old(slots)@),
        at < old(paths)@.len(),
    ensures
        final(paths)@ == old(paths)@.remove(at as int),
        slotted(final(paths)@, final(slots)@),
{
    let ghost old_paths = paths@;
    let ghost old_slots = slots@;
    let gone = paths.remove(at);
    slots.remove(gone.as_str());
    let ghost rest = paths@;
    let mut j: usize = at;
    while j < paths.len()
        invariant
            at <= j <= rest.len(),
            paths@ == rest,
            rest == old_paths.remove(at as int),
            gone@ == old_paths[at as int]@,
            slotted(old_paths, old_slots),
            at < old_paths.len(),
            forall|i: int|
                0 <= i < rest.len() ==> old_slots.contains_key(#[trigger] rest[i]@)
                    && old_slots[rest[i]@] == (if i < at { i } else { i + 1 }),
            slots@.dom() == old_slots.dom().remove(gone@),
            forall|k: Seq<char>|
                slots@.contains_key(k) ==> #[trigger] slots@[k] == (if old_slots[k] < at
                    || old_slots[k] > j {
                    old_slots[k] as int
                } else {
                    old_slots[k] - 1
                }),
        decreases rest.len() - j,
    {
        let key = paths[j].clone();
        slots.insert(key, j);
        j += 1;
    }
}

/// A sequence with one more element holds what it held before and that element.
proof fn lemma_push_contains(done: Seq<Seq<char>>, t: Seq<char>)
    ensures
        forall|x: Seq<char>| done.push(t).contains(x) <==> (done.contains(x) || x == t),
{
    let now = done.push(t);
    assert forall|x: Seq<char>| now.contains(x) <==> (done.contains(x) || x == t) by {
        if done.contains(x) {
            let i = choose|i: int| 0 <= i < done.len() && done[i] == x;
            assert(now[i] == x);
        }
        if x == t {
            assert(now[done.len() as int] == x);
        }
    }
}

/// The entry of `m` for `t`, and 0 where it has none.
spec fn entry_or_zero(m: Map<Seq<char>, nat>, t: Seq<char>) -> nat {
    if m.contains_key(t) {
        m[t]
    } else {
        0
    }
}

/// The frequencies `df` with one taken off for each of `terms` that has a
/// positive entry.
spec fn lowered(df: Map<Seq<char>, nat>, terms: Seq<Seq<char>>) -> Map<Seq<char>, nat> {
    Map::new(
        |t: Seq<char>| df.contains_key(t),
        |t: Seq<char>|
            if terms.contains(t) && df[t] > 0 {
                (df[t] - 1) as nat
            } else {
                df[t]
            },
    )
}

/// The frequencies `df` with one added for each of `terms`.
spec fn raised(df: Map<Seq<char>, nat>, terms: Seq<Seq<char>>) -> Map<Seq<char>, nat> {
    Map::new(
        |t: Seq<char>| df.contains_key(t) || terms.contains(t),
        |t: Seq<char>|
            if terms.contains(t) {
                (if df.contains_key(t) {
                    df[t]
                } else {
                    0
                }) + 1
            } else {
                df[t]
            },
    )
}

/// Lowers the frequency of each term of `tf` by one, not below zero.
fn lower(df: &mut TermCounts, tf: &TermCounts)
    requires
        old(df).wf(),
        tf.wf(),
    ensures
        final(df).wf(),
        final(df)@ == lowered(old(df)@, tf.terms()),
{
    let ghost old_df = df@;
    let ghost terms = tf.terms();
    proof {
        tf.lemma_terms();
    }
    let mut k: usize = 0;
    while k < tf.len()
        invariant
            k <= terms.len(),
            tf.wf(),
            terms == tf.terms(),
            terms.no_duplicates(),
            df.wf(),
            df@ == lowered(old_df, terms.take(k as int)),
        decreases terms.len() - k,
    {
        let ghost t = terms[k as int];
        let ghost done = terms.take(k as int);
        df.decrement(tf.term_at(k).as_str());
        k += 1;
        proof {
            assert(terms.take(k as int) == done.push(t));
            lemma_push_contains(done, t);
        }
    }
    assert(terms.take(k as int) == terms);
}

/// Raises the frequency of each term of `tf` by one.
fn raise(df: &mut TermCounts, tf: &TermCounts, Ghost(bound): Ghost<nat>)
    requires
        old(df).wf(),
        tf.wf(),
        bound < usize::MAX,
        forall|t: Seq<char>| old(df).count(t) <= bound,
    ensures
        final(df).wf(),
        final(df)@ == raised(old(df)@, tf.terms()),
{
    let ghost old_df = df@;
    let ghost terms = tf.terms();
    proof {
        tf.lemma_terms();
        assert forall|t: Seq<char>| #[trigger] entry_or_zero(old_df, t) <= bound by {
            assert(df.count(t) <= bound);
        }
    }
    let mut k: usize = 0;
    while k < tf.len()
        invariant
            k <= terms.len(),
            tf.wf(),
            terms == tf.terms(),
            terms.no_duplicates(),
            df.wf(),
            df@ == raised(old_df, terms.take(k as int)),
            bound < usize::MAX,
            forall|t: Seq<char>| #[trigger] entry_or_zero(old_df, t) <= bound,
        decreases terms.len() - k,
    {
        let ghost t = terms[k as int];
        let ghost done = terms.take(k as int);
        assert(df.count(t) == entry_or_zero(old_df, t));
        df.increment(tf.term_at(k).clone());
        k += 1;
        proof {
            assert(terms.take(k as int) == done.push(t));
            lemma_push_contains(done, t);
        }
    }
    assert(terms.take(k as int) == terms);
}

/// The index of a set of files.
pub struct InMemoryIndexModel {
    paths: Vec<String>,
    docs: Vec<Doc>,
    slots: StringHashMap<usize>,
    df: TermCounts,
}

impl View for InMemoryIndexModel {
    type V = IndexView;

    closed spec fn view(&self) -> IndexView {
        IndexView {
            docs: Seq::new(self.paths@.len(), |i: int| (self.paths@[i]@, self.docs@[i]@)),
            df: self.df@,
        }
    }
}

impl InMemoryIndexModel {
    /// The paths, the documents and their positions agree with each other.
    closed spec fn linked(&self) -> bool {
        &&& self.paths@.len() == self.docs@.len()
        &&& slotted(self.paths@, self.slots@)
        &&& forall|i: int| 0 <= i < self.docs@.len() ==> (#[trigger] self.docs@[i]).wf()
        &&& self.df.wf()
    }

    /// The parts of the index are consistent and what it holds is well formed.
    pub closed spec fn wf(&self) -> bool {
        self.linked() && self@.wf()
    }

    /// What a well-formed index holds is well formed.
    pub proof fn lemma_wf(&self)
        requires
            self.wf(),
        ensures
            self@.wf(),
    {
    }

    /// In a linked index the paths are distinct, and the table of positions
    /// finds exactly the paths that are indexed.
    proof fn lemma_linked(&self)
        requires
            self.linked(),
        ensures
            forall|i: int, j: int|
                0 <= i < self@.docs.len() && 0 <= j < self@.docs.len() && i != j ==> self@.docs[i].0
                    != self@.docs[j].0,
            forall|k: Seq<char>| self.slots@.contains_key(k) <==> self@.has(k),
            forall|k: Seq<char>|
                self.slots@.contains_key(k) ==> self@.position(k) == #[trigger] self.slots@[k],
    {
        let v = self@;
        assert forall|k: Seq<char>| self.slots@.contains_key(k) <==> v.has(k) by {
            if self.slots@.contains_key(k) {
                let i = self.slots@[k] as int;
                assert(v.docs[i].0 == k);
            }
            if v.has(k) {
                let i = choose|i: int| 0 <= i < v.docs.len() && v.docs[i].0 == k;
                assert(self.slots@.contains_key(self.paths@[i]@));
            }
        }
        assert forall|k: Seq<char>| self.slots@.contains_key(k) implies v.position(k)
            == #[trigger] self.slots@[k] by {
            let i = self.slots@[k] as int;
            assert(v.docs[i].0 == k);
        }
    }

    /// An index without documents.
    pub fn new() -> (index: Self)
        ensures
            index.wf(),
            index@.docs == Seq::<(Seq<char>, DocView)>::empty(),
            index@.df == Map::<Seq<char>, nat>::empty(),
    {
        InMemoryIndexModel {
            paths: Vec::new(),
            docs: Vec::new(),
            slots: StringHashMap::new(),
            df: TermCounts::new(),
        }
    }

    /// Number of documents in the index.
    pub fn len(&self) -> (n: usize)
        requires
            self.wf(),
        ensures
            n == self@.docs.len(),
    {
        self.paths.len()
    }

    /// The path of the document at position `i`.
    pub fn path_at(&self, i: usize) -> (path: &String)
        requires
            self.wf(),
            i < self@.docs.len(),
        ensures
            path@ == self@.docs[i as int].0,
    {
        &self.paths[i]
    }

    /// The document at position `i`.
    pub fn document_at(&self, i: usize) -> (doc: &Doc)
        requires
            self.wf(),
            i < self@.docs.len(),
        ensures
            doc.wf(),
            doc@ == self@.docs[i as int].1,
    {
        &self.docs[i]
    }

    /// The document under `file_path`, if there is one.
    pub fn document(&self, file_path: &str) -> (found: Option<&Doc>)
        requires
            self.wf(),
        ensures
            found is Some == self@.has(file_path@),
            found matches Some(doc) ==> doc.wf() && doc@ == self@.doc(file_path@),
    {
        proof {
            self.lemma_linked();
        }
        match self.slots.get(file_path) {
            Some(slot) => Some(&self.docs[*slot]),
            None => None,
        }
    }

    /// The document frequency recorded for `term`, if it has an entry.
    pub fn document_frequency(&self, term: &str) -> (found: Option<usize>)
        requires
            self.wf(),
        ensures
            match found {
                Some(c) => self@.df.contains_key(term@) && c == self@.df[term@],
                None => !self@.df.contains_key(term@),
            },
    {
        self.df.get(term)
    }

    /// The table of document frequencies.
    pub closed spec fn df(&self) -> TermCounts {
        self.df
    }

    /// The table of document frequencies is consistent, and holds the
    /// document frequencies of the index.
    pub proof fn lemma_df_wf(&self)
        requires
            self.wf(),
        ensures
            self.df().wf(),
            self.df()@ == self@.df,
    {
    }

    /// Each token that has an entry with its document frequency, in order
    /// of first insertion.
    pub fn document_frequencies(&self) -> (list: Vec<(String, usize)>)
        requires
            self.wf(),
        ensures
            list@.len() == self.df().listing().len(),
            forall|i: int|
                0 <= i < list@.len() ==> (#[trigger] list@[i]).0@ == self.df().listing()[i].0
                    && list@[i].1 == self.df().listing()[i].1,
    {
        self.df.entries()
    }

    /// The paths of the documents, in the order in which they were added.
    pub fn paths(&self) -> (list: Vec<String>)
        requires
            self.wf(),
        ensures
            list@.len() == self@.docs.len(),
            forall|i: int| 0 <= i < list@.len() ==> (#[trigger] list@[i])@ == self@.docs[i].0,
    {
        let mut list: Vec<String> = Vec::new();
        let mut i: usize = 0;
        while i < self.paths.len()
            invariant
                i <= self.paths@.len(),
                self.paths@.len() == self@.docs.len(),
                list@.len() == i,
                forall|a: int| 0 <= a < i ==> (#[trigger] list@[a])@ == self@.docs[a].0,
            decreases self.paths@.len() - i,
        {
            list.push(self.paths[i].clone());
            i += 1;
        }
        list
    }

    /// Whether the file at `file_path`, modified at `last_modified`, has to
    /// be indexed: true where no document stands under the path, or the one
    /// that does was indexed at an earlier modification time.
    pub fn requires_reindexing(&self, file_path: &str, last_modified: Timestamp) -> (stale: bool)
        requires
            self.wf(),
        ensures
            stale == self@.stale(file_path@, last_modified),
    {
        match self.document(file_path) {
            Some(doc) => doc.last_modified().is_before(&last_modified),
            None => true,
        }
    }

    /// Takes the document under `file_path` out of the index and lowers the
    /// document frequency of each of its tokens by one. Without a document
    /// under that path nothing changes.
    pub fn remove_document(&mut self, file_path: &str)
        requires
            old(self).wf(),
        ensures
            final(self).wf(),
            final(self)@ == old(self)@.remove(file_path@),
    {
        proof {
            self.lemma_linked();
        }
        let found = match self.slots.get(file_path) {
            Some(slot) => Some(*slot),
            None => None,
        };
        let at = match found {
            Some(at) => at,
            None => {
                return ;
            },
        };
        let ghost before = self@;
        let gone = self.docs.remove(at);
        unslot(&mut self.paths, &mut self.slots, at);
        lower(&mut self.df, &gone.tf);
        proof {
            gone.tf.lemma_terms();
            assert(self@.docs =~= before.remove(file_path@).docs);
            assert(self@.df =~= before.remove(file_path@).df);
            lemma_remove_wf(before, file_path@);
        }
    }

    /// Puts `doc` under `file_path`, in place of whatever was indexed there:
    /// the document comes last, and the document frequency of each of its
    /// tokens goes up by one.
    pub fn insert(&mut self, file_path: String, doc: Doc)
        requires
            old(self).wf(),
            doc.wf(),
        ensures
            final(self).wf(),
            final(self)@ == old(self)@.add(file_path@, doc@),
    {
        self.remove_document(file_path.as_str());
        let ghost rest = self@;
        proof {
            self.lemma_linked();
            doc.tf.lemma_terms();
            assert(!rest.has(file_path@));
        }
        let at = self.paths.len();
        self.slots.insert(file_path.clone(), at);
        self.paths.push(file_path);
        proof {
            assert(self.paths.len() == at + 1);
            assert forall|t: Seq<char>| self.df.count(t) <= at by {
                assert(rest.frequency(t) == containing(rest.docs, t));
                lemma_containing_push(rest.docs, (file_path@, doc@), t);
            }
        }
        raise(&mut self.df, &doc.tf, Ghost(at as nat));
        self.docs.push(doc);
        proof {
            assert(self@.docs =~= old(self)@.add(file_path@, doc@).docs);
            assert(self@.df =~= old(self)@.add(file_path@, doc@).df);
            lemma_add_wf(old(self)@, file_path@, doc@);
        }
    }

    /// Indexes `content` under `file_path`, in place of whatever was indexed
    /// there: the new document comes last, and the document frequency of
    /// each of its tokens goes up by one. Never fails.
    pub fn add_document(
        &mut self,
        file_path: String,
        content: &[char],
        last_modified: Timestamp,
    ) -> (done: Result<(), ()>)
        requires
            old(self).wf(),
        ensures
            done is Ok,
            final(self).wf(),
            final(self)@ == old(self)@.add(file_path@, doc_of(tokens(content@), last_modified)),
    {
        self.insert(file_path, Doc::new(content, last_modified));
        Ok(())
    }

    /// The index with the table `df` in place of its table of document
    /// frequencies, unless `df` counts some token otherwise than the index does.
    pub fn with_frequencies(self, df: TermCounts) -> (made: Option<InMemoryIndexModel>)
        requires
            self.wf(),
            df.wf(),
        ensures
            made is Some == (forall|t: Seq<char>| df.count(t) == self@.frequency(t)),
            made matches Some(index) ==> index.wf() && index@ == (IndexView {
                docs: self@.docs,
                df: df@,
            }),
    {
        proof {
            df.lemma_terms();
            assert forall|t: Seq<char>| self.df.count(t) == self@.frequency(t) by {}
        }
        if !df.same_counts(&self.df) {
            return None;
        }
        let index = InMemoryIndexModel { paths: self.paths, docs: self.docs, slots: self.slots, df };
        proof {
            assert forall|t: Seq<char>| #[trigger] index@.frequency(t) == containing(index@.docs, t) by {
                assert(self@.frequency(t) == containing(self@.docs, t));
            }
        }
        Some(index)
    }

    /// For every document, in the order in which the documents were added,
    /// the weight of each token of `query` in it. Documents that hold none
    /// of the tokens are listed too. Never fails.
    pub fn search(&self, query: &[char]) -> (found: Result<Vec<Match>, ()>)
        requires
            self.wf(),
        ensures
            found matches Ok(list) && list@.len() == self@.docs.len() && forall|i: int|
                0 <= i < list@.len() ==> (#[trigger] list@[i]).matches(self@, i, tokens(query@)),
    {
        let words = tokenize(query);
        let ghost all = tokens(query@);
        let documents = self.paths.len();
        let mut list: Vec<Match> = Vec::new();
        let mut i: usize = 0;
        while i < documents
            invariant
                self.wf(),
                words.deep_view() == all,
                documents == self@.docs.len(),
                i <= documents,
                list@.len() == i,
                forall|a: int| 0 <= a < i ==> (#[trigger] list@[a]).matches(self@, a, all),
            decreases documents - i,
        {
            let doc = &self.docs[i];
            let mut weights: Vec<TermWeight> = Vec::new();
            let mut j: usize = 0;
            while j < words.len()
                invariant
                    self.wf(),
                    words.deep_view() == all,
                    documents == self@.docs.len(),
                    i < documents,
                    *doc == self.docs@[i as int],
                    j <= words.len(),
                    weights@.len() == j,
                    forall|b: int|
                        0 <= b < j ==> (#[trigger] weights@[b]).weighs(self@, i as int, all[b]),
                decreases words.len() - j,
            {
                let word = words[j].as_str();
                let occurrences = match doc.tf.get(word) {
                    Some(c) => c,
                    None => 0,
                };
                let document_frequency = match self.df.get(word) {
                    Some(c) => if c > 0 {
                        c
                    } else {
                        1
                    },
                    None => 1,
                };
                weights.push(
                    TermWeight {
                        occurrences,
                        total_tokens: doc.total_tokens,
                        documents,
                        document_frequency,
                    },
                );
                j += 1;
            }
            list.push(Match { path: self.paths[i].clone(), weights });
            i += 1;
        }
        Ok(list)
    }
}

} // verus!
