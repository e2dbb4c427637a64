//! Snapshots: what an index holds, as plain lists that can be written out
//! and read back.

use vstd::prelude::*;
use crate::counts::{keys_of, pairs_view, table_of, TermCounts};
use crate::model::{Doc, InMemoryIndexModel};
use crate::time::Timestamp;
use crate::view::{containing, DocView, IndexView};

verus! {

/// One document of a snapshot.
#[derive(Debug)]
pub struct DocRecord {
    pub path: String,
    /// Each token of the document with its occurrences.
    pub terms: Vec<(String, usize)>,
    pub total_tokens: usize,
    pub last_modified: Timestamp,
}

/// What a document of a snapshot holds.
pub ghost struct DocRecordView {
    pub path: Seq<char>,
    pub terms: Seq<(Seq<char>, nat)>,
    pub total_tokens: nat,
    pub last_modified: Timestamp,
}

impl View for DocRecord {
    type V = DocRecordView;

    open spec fn view(&self) -> DocRecordView {
        DocRecordView {
            path: self.path@,
            terms: pairs_view(self.terms@),
            total_tokens: self.total_tokens as nat,
            last_modified: self.last_modified,
        }
    }
}

impl DocRecordView {
    /// The document that the record describes.
    pub open spec fn doc(self) -> DocView {
        DocView {
            tf: table_of(self.terms),
            total_tokens: self.total_tokens,
            last_modified: self.last_modified,
        }
    }
}

/// The documents of an index, in its order, and its document frequencies.
#[derive(Debug)]
pub struct Snapshot {
    pub docs: Vec<DocRecord>,
    /// Each token that has an entry with its document frequency.
    pub df: Vec<(String, usize)>,
}

/// What a snapshot holds.
pub ghost struct SnapshotView {
    pub docs: Seq<DocRecordView>,
    pub df: Seq<(Seq<char>, nat)>,
}

impl View for Snapshot {
    type V = SnapshotView;

    open spec fn view(&self) -> SnapshotView {
        SnapshotView { docs: Seq::new(self.docs@.len(), |i: int| self.docs@[i]@), df: pairs_view(self.df@) }
    }
}

impl SnapshotView {
    /// The index that the snapshot describes.
    pub open spec fn index(self) -> IndexView {
        IndexView {
            docs: Seq::new(self.docs.len(), |i: int| (self.docs[i].path, self.docs[i].doc())),
            df: table_of(self.df),
        }
    }

    /// No list names a token twice, and the index described is well formed.
    pub open spec fn valid(self) -> bool {
        &&& keys_of(self.df).no_duplicates()
        &&& forall|i: int|
            0 <= i < self.docs.len() ==> keys_of(#[trigger] self.docs[i].terms).no_duplicates()
        &&& self.index().wf()
    }
}

/// A snapshot of `index`.
pub fn snapshot_of(index: &InMemoryIndexModel) -> (snapshot: Snapshot)
    requires
        index.wf(),
    ensures
        snapshot@.valid(),
        snapshot@.index() == index@,
{
    let mut docs: Vec<DocRecord> = Vec::new();
    let mut i: usize = 0;
    let n = index.len();
    while i < n
        invariant
            index.wf(),
            n == index@.docs.len(),
            i <= n,
            docs@.len() == i,
            forall|a: int|
                0 <= a < i ==> (#[trigger] docs@[a])@.path == index@.docs[a].0 && docs@[a]@.doc()
                    == index@.docs[a].1 && keys_of(docs@[a]@.terms).no_duplicates(),
        decreases n - i,
    {
        let doc = index.document_at(i);
        let terms = doc.term_frequencies();
        proof {
            doc.lemma_tf_wf();
            doc.tf().lemma_listing();
            assert(pairs_view(terms@) =~= doc.tf().listing());
        }
        docs.push(
            DocRecord {
                path: index.path_at(i).clone(),
                terms,
                total_tokens: doc.total_tokens(),
                last_modified: doc.last_modified(),
            },
        );
        i += 1;
    }
    let df = index.document_frequencies();
    proof {
        index.lemma_df_wf();
        index.df().lemma_listing();
        assert(pairs_view(df@) =~= index.df().listing());
    }
    let snapshot = Snapshot { docs, df };
    proof {
        index.lemma_wf();
        assert(snapshot@.index().docs =~= index@.docs);
    }
    snapshot
}

/// The index that `snapshot` describes, unless the snapshot is not valid.
pub fn restore(snapshot: &Snapshot) -> (made: Option<InMemoryIndexModel>)
    ensures
        made is Some == snapshot@.valid(),
        made matches Some(index) ==> index.wf() && index@ == snapshot@.index(),
{
    let ghost want = snapshot@.index();
    let mut index = InMemoryIndexModel::new();
    let mut i: usize = 0;
    while i < snapshot.docs.len()
        invariant
            want == snapshot@.index(),
            i <= snapshot.docs@.len(),
            index.wf(),
            index@.docs == want.docs.take(i as int),
            forall|a: int|
                0 <= a < i ==> keys_of(#[trigger] snapshot@.docs[a].terms).no_duplicates(),
        decreases snapshot.docs@.len() - i,
    {
        let record = &snapshot.docs[i];
        assert(want.docs[i as int] == (record@.path, record@.doc()));
        if index.document(record.path.as_str()).is_some() {
            return None;
        }
        let tf = match TermCounts::from_pairs(&record.terms) {
            Some(tf) => tf,
            None => {
                return None;
            },
        };
        let doc = match Doc::from_counts(tf, record.total_tokens, record.last_modified) {
            Some(doc) => doc,
            None => {
                return None;
            },
        };
        index.insert(record.path.clone(), doc);
        i += 1;
    }
    assert(want.docs.take(i as int) == want.docs);
    let df = match TermCounts::from_pairs(&snapshot.df) {
        Some(df) => df,
        None => {
            return None;
        },
    };
    proof {
        index.lemma_wf();
        crate::counts::lemma_table_of(snapshot@.df);
        assert forall|t: Seq<char>| df.count(t) == want.frequency(t) by {}
    }
    index.with_frequencies(df)
}

} // verus!
