//! What the index is: documents with their term frequencies, and the
//! document frequencies that go with them.

use vstd::prelude::*;
use vstd::multiset::Multiset;
use crate::counts::sum_of;
use crate::time::Timestamp;

verus! {

/// How often each token occurs in `tokens`, for the tokens that occur at all.
pub open spec fn term_counts(tokens: Seq<Seq<char>>) -> Map<Seq<char>, nat> {
    Map::new(|t: Seq<char>| tokens.contains(t), |t: Seq<char>| tokens.to_multiset().count(t))
}

/// What a document is to the index.
pub ghost struct DocView {
    /// Occurrences of each token that the document holds.
    pub tf: Map<Seq<char>, nat>,
    /// Number of tokens in the document.
    pub total_tokens: nat,
    /// Modification time of the source when it was indexed.
    pub last_modified: Timestamp,
}

impl DocView {
    /// Every listed token occurs at least once, and the token count is the
    /// sum of the occurrences.
    pub open spec fn wf(self) -> bool {
        &&& self.tf.dom().finite()
        &&& forall|t: Seq<char>| self.tf.contains_key(t) ==> #[trigger] self.tf[t] >= 1
        &&& self.total_tokens == sum_of(self.tf)
    }

    /// Occurrences of `t` in the document.
    pub open spec fn occurrences(self, t: Seq<char>) -> nat {
        if self.tf.contains_key(t) {
            self.tf[t]
        } else {
            0
        }
    }
}

/// The document that a text with the tokens `tokens` makes.
pub open spec fn doc_of(tokens: Seq<Seq<char>>, last_modified: Timestamp) -> DocView {
    DocView { tf: term_counts(tokens), total_tokens: tokens.len(), last_modified }
}

/// The occurrences counted over a token sequence add up to its length.
pub proof fn lemma_term_counts_total(tokens: Seq<Seq<char>>)
    ensures
        term_counts(tokens).dom().finite(),
        Multiset::from_map(term_counts(tokens)) == tokens.to_multiset(),
        Multiset::from_map(term_counts(tokens)).len() == tokens.len(),
        doc_of(tokens, Timestamp { secs: 0, nanos: 0 }).wf(),
{
    broadcast use vstd::seq_lib::group_to_multiset_ensures;

    vstd::seq_lib::seq_to_set_is_finite(tokens);
}

/// Counting one more token raises the count of that token by one, and no
/// count is more than the number of tokens counted.
pub proof fn lemma_term_counts_push(seen: Seq<Seq<char>>, t: Seq<char>)
    ensures
        term_counts(seen).contains_key(t) ==> term_counts(seen)[t] <= seen.len(),
        term_counts(seen.push(t)) == term_counts(seen).insert(
            t,
            if term_counts(seen).contains_key(t) {
                term_counts(seen)[t] + 1
            } else {
                1
            },
        ),
{
    broadcast use vstd::seq_lib::group_to_multiset_ensures;

    assert(seen.to_multiset().count(t) <= seen.to_multiset().len());
    assert forall|x: Seq<char>| seen.push(t).contains(x) <==> (seen.contains(x) || x == t) by {
        if seen.contains(x) {
            let i = choose|i: int| 0 <= i < seen.len() && seen[i] == x;
            assert(seen.push(t)[i] == x);
        }
        if x == t {
            assert(seen.push(t)[seen.len() as int] == x);
        }
    }
}

/// Number of documents in `docs` that hold the token `t`.
pub open spec fn containing(docs: Seq<(Seq<char>, DocView)>, t: Seq<char>) -> nat
    decreases docs.len(),
{
    if docs.len() == 0 {
        0
    } else {
        containing(docs.drop_last(), t) + if docs.last().1.tf.contains_key(t) {
            1nat
        } else {
            0nat
        }
    }
}

/// What the index is: its documents by path, in the order in which they
/// were added, and the document frequency recorded for each token.
pub ghost struct IndexView {
    pub docs: Seq<(Seq<char>, DocView)>,
    pub df: Map<Seq<char>, nat>,
}

impl IndexView {
    /// A document is indexed under `path`.
    pub open spec fn has(self, path: Seq<char>) -> bool {
        exists|i: int| 0 <= i < self.docs.len() && self.docs[i].0 == path
    }

    /// Where the document under `path` stands.
    pub open spec fn position(self, path: Seq<char>) -> int {
        choose|i: int| 0 <= i < self.docs.len() && self.docs[i].0 == path
    }

    /// The document under `path`.
    pub open spec fn doc(self, path: Seq<char>) -> DocView {
        self.docs[self.position(path)].1
    }

    /// The document frequency recorded for `t`, and 0 where none is.
    pub open spec fn frequency(self, t: Seq<char>) -> nat {
        if self.df.contains_key(t) {
            self.df[t]
        } else {
            0
        }
    }

    /// No path occurs twice, every document is well formed, and the
    /// frequency of every token is the number of documents that hold it.
    pub open spec fn wf(self) -> bool {
        &&& forall|i: int, j: int|
            0 <= i < self.docs.len() && 0 <= j < self.docs.len() && i != j ==> self.docs[i].0
                != self.docs[j].0
        &&& forall|i: int| 0 <= i < self.docs.len() ==> (#[trigger] self.docs[i]).1.wf()
        &&& self.df.dom().finite()
        &&& forall|t: Seq<char>| #[trigger] self.frequency(t) == containing(self.docs, t)
    }

    /// The index without the document under `path`: each token of that
    /// document has its frequency lowered by one, and keeps its entry.
    pub open spec fn remove(self, path: Seq<char>) -> IndexView {
        if self.has(path) {
            let gone = self.doc(path);
            IndexView {
                docs: self.docs.remove(self.position(path)),
                df: Map::new(
                    |t: Seq<char>| self.df.contains_key(t),
                    |t: Seq<char>|
                        if gone.tf.contains_key(t) && self.df[t] > 0 {
                            (self.df[t] - 1) as nat
                        } else {
                            self.df[t]
                        },
                ),
            }
        } else {
            self
        }
    }

    /// The index with `doc` under `path` in place of whatever stood there:
    /// the document comes last, and each of its tokens has its frequency
    /// raised by one.
    pub open spec fn add(self, path: Seq<char>, doc: DocView) -> IndexView {
        let rest = self.remove(path);
        IndexView {
            docs: rest.docs.push((path, doc)),
            df: Map::new(
                |t: Seq<char>| rest.df.contains_key(t) || doc.tf.contains_key(t),
                |t: Seq<char>|
                    if doc.tf.contains_key(t) {
                        rest.frequency(t) + 1
                    } else {
                        rest.df[t]
                    },
            ),
        }
    }

    /// Whether a file at `path` that was modified at `last_modified` has to
    /// be indexed: it is not indexed yet, or was indexed at an earlier state.
    pub open spec fn stale(self, path: Seq<char>, last_modified: Timestamp) -> bool {
        !self.has(path) || self.doc(path).last_modified.precedes(last_modified)
    }
}

/// Adding a document at the end raises the number of documents that hold a
/// token by one exactly for the tokens of that document.
pub proof fn lemma_containing_push(
    docs: Seq<(Seq<char>, DocView)>,
    e: (Seq<char>, DocView),
    t: Seq<char>,
)
    ensures
        containing(docs.push(e), t) == containing(docs, t) + if e.1.tf.contains_key(t) {
            1nat
        } else {
            0nat
        },
        containing(docs, t) <= docs.len(),
    decreases docs.len(),
{
    assert(docs.push(e).drop_last() == docs);
    if docs.len() > 0 {
        lemma_containing_push(docs.drop_last(), docs.last(), t);
    }
}

/// Taking a document out lowers the number of documents that hold a token
/// by one exactly for the tokens of that document.
pub proof fn lemma_containing_remove(docs: Seq<(Seq<char>, DocView)>, i: int, t: Seq<char>)
    requires
        0 <= i < docs.len(),
    ensures
        containing(docs, t) == containing(docs.remove(i), t) + if docs[i].1.tf.contains_key(t) {
            1nat
        } else {
            0nat
        },
    decreases docs.len(),
{
    if i < docs.len() - 1 {
        lemma_containing_remove(docs.drop_last(), i, t);
        assert(docs.remove(i).drop_last() == docs.drop_last().remove(i));
    }
}

/// An index without documents and without frequencies.
pub open spec fn empty_index() -> IndexView {
    IndexView { docs: Seq::empty(), df: Map::empty() }
}

/// Among distinct paths, the position of a path is the one place where it stands.
pub proof fn lemma_position(index: IndexView, path: Seq<char>, i: int)
    requires
        index.wf(),
        0 <= i < index.docs.len(),
        index.docs[i].0 == path,
    ensures
        index.has(path),
        index.position(path) == i,
        index.doc(path) == index.docs[i].1,
{
}

/// Removing a document keeps the index well formed, and leaves no document
/// under the removed path; the other documents stay, in their order.
pub proof fn lemma_remove_wf(index: IndexView, path: Seq<char>)
    requires
        index.wf(),
    ensures
        index.remove(path).wf(),
        !index.remove(path).has(path),
        index.remove(path).df.dom() == index.df.dom(),
        forall|other: Seq<char>|
            other != path ==> index.remove(path).has(other) == index.has(other),
        forall|other: Seq<char>|
            other != path && index.has(other) ==> index.remove(path).doc(other) == index.doc(other),
{
    let after = index.remove(path);
    if index.has(path) {
        let at = index.position(path);
        assert forall|t: Seq<char>| #[trigger] after.frequency(t) == containing(after.docs, t) by {
            lemma_containing_remove(index.docs, at, t);
            assert(index.frequency(t) == containing(index.docs, t));
        }
        assert(after.df.dom() =~= index.df.dom());
        if after.has(path) {
            let i = choose|i: int| 0 <= i < after.docs.len() && after.docs[i].0 == path;
            assert(after.docs[i] == index.docs[if i < at { i } else { i + 1 }]);
        }
        assert forall|other: Seq<char>| other != path implies after.has(other) == index.has(
            other,
        ) by {
            if index.has(other) {
                let i = index.position(other);
                assert(after.docs[if i < at { i } else { i - 1 }] == index.docs[i]);
            }
        }
    }
}

/// Adding a well-formed document keeps the index well formed; the document
/// then stands under its path, in the last place.
pub proof fn lemma_add_wf(index: IndexView, path: Seq<char>, doc: DocView)
    requires
        index.wf(),
        doc.wf(),
    ensures
        index.add(path, doc).wf(),
        index.add(path, doc).has(path),
        index.add(path, doc).doc(path) == doc,
        index.add(path, doc).position(path) == index.add(path, doc).docs.len() - 1,
{
    let rest = index.remove(path);
    let after = index.add(path, doc);
    lemma_remove_wf(index, path);
    let last = rest.docs.len() as int;
    assert(after.df.dom() =~= rest.df.dom().union(doc.tf.dom()));
    assert forall|t: Seq<char>| #[trigger] after.frequency(t) == containing(after.docs, t) by {
        lemma_containing_push(rest.docs, (path, doc), t);
        assert(rest.frequency(t) == containing(rest.docs, t));
    }
    lemma_position(after, path, last);
}

} // verus!
