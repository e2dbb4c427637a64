//! What holds of the index and of the refresh cycle, whatever is done with them.

use vstd::prelude::*;
use crate::counts::sum_of;
use crate::lexer::tokens;
use crate::model::{InMemoryIndexModel, Match};
use crate::refresh::{
    lemma_pending_rest, pending, remove_all, ActionView, EntryView, EventView, RefreshView, Stage,
};
use crate::snapshot::Snapshot;
use crate::time::Timestamp;
use crate::view::{
    containing, doc_of, empty_index, lemma_add_wf, lemma_containing_push,
    lemma_containing_remove, lemma_remove_wf, lemma_term_counts_total, DocView, IndexView,
};

verus! {

/// The number of tokens of every document of a well-formed index is the sum
/// of its term frequencies.
pub proof fn law_total_tokens(index: IndexView, i: int)
    requires
        index.wf(),
        0 <= i < index.docs.len(),
    ensures
        index.docs[i].1.total_tokens == sum_of(index.docs[i].1.tf),
{
}

/// After a text was added, the number of tokens recorded for it is the sum
/// of its term frequencies, which is the number of its tokens.
pub proof fn law_total_tokens_after_add(
    index: IndexView,
    path: Seq<char>,
    tokens: Seq<Seq<char>>,
    last_modified: Timestamp,
)
    requires
        index.wf(),
    ensures
        ({
            let doc = index.add(path, doc_of(tokens, last_modified)).doc(path);
            doc.total_tokens == sum_of(doc.tf) && doc.total_tokens == tokens.len()
        }),
{
    lemma_term_counts_total(tokens);
    lemma_add_wf(index, path, doc_of(tokens, last_modified));
}

/// In a well-formed index the frequency of every token is the number of
/// documents that hold it.
pub proof fn law_document_frequency(index: IndexView, t: Seq<char>)
    requires
        index.wf(),
    ensures
        index.frequency(t) == containing(index.docs, t),
        index.frequency(t) <= index.docs.len(),
{
    if index.docs.len() > 0 {
        lemma_containing_push(index.docs.drop_last(), index.docs.last(), t);
    }
}

/// One change of the index.
pub ghost enum Change {
    /// A text with the given tokens is indexed under the path.
    Add(Seq<char>, Seq<Seq<char>>, Timestamp),
    /// The document under the path is removed.
    Remove(Seq<char>),
}

/// The index that the changes `changes` make of an empty index, one after
/// the other.
pub open spec fn after(changes: Seq<Change>) -> IndexView
    decreases changes.len(),
{
    if changes.len() == 0 {
        empty_index()
    } else {
        let before = after(changes.drop_last());
        match changes.last() {
            Change::Add(path, tokens, last_modified) => before.add(
                path,
                doc_of(tokens, last_modified),
            ),
            Change::Remove(path) => before.remove(path),
        }
    }
}

/// Every index that additions and removals make of an empty index is well
/// formed: in it the frequency of every token is the number of documents
/// that hold the token, and the number of tokens of every document is the
/// sum of its term frequencies.
pub proof fn law_reachable(changes: Seq<Change>)
    ensures
        after(changes).wf(),
        forall|t: Seq<char>| #[trigger]
            after(changes).frequency(t) == containing(after(changes).docs, t),
        forall|i: int|
            0 <= i < after(changes).docs.len() ==> (#[trigger] after(changes).docs[i]).1.total_tokens
                == sum_of(after(changes).docs[i].1.tf),
    decreases changes.len(),
{
    if changes.len() > 0 {
        let before = after(changes.drop_last());
        law_reachable(changes.drop_last());
        match changes.last() {
            Change::Add(path, tokens, last_modified) => {
                lemma_term_counts_total(tokens);
                lemma_add_wf(before, path, doc_of(tokens, last_modified));
            },
            Change::Remove(path) => {
                lemma_remove_wf(before, path);
            },
        }
    }
}

/// Removing a document and adding one with the same term frequencies under
/// the same path gives back the document frequencies from before the removal.
pub proof fn law_remove_then_add_restores(index: IndexView, path: Seq<char>, doc: DocView)
    requires
        index.wf(),
        index.has(path),
        index.doc(path).tf == doc.tf,
    ensures
        index.remove(path).add(path, doc).df == index.df,
{
    lemma_remove_wf(index, path);
    let at = index.position(path);
    assert forall|t: Seq<char>| doc.tf.contains_key(t) implies index.df.contains_key(t)
        && index.df[t] > 0 by {
        lemma_containing_remove(index.docs, at, t);
        assert(index.frequency(t) == containing(index.docs, t));
    }
}

/// Right after a document was added it does not have to be indexed again
/// for the modification time it was added with, and has to be for any later one.
pub proof fn law_fresh_after_add(
    index: IndexView,
    path: Seq<char>,
    doc: DocView,
    later: Timestamp,
)
    requires
        index.wf(),
        doc.wf(),
    ensures
        !index.add(path, doc).stale(path, doc.last_modified),
        doc.last_modified.precedes(later) ==> index.add(path, doc).stale(path, later),
{
    lemma_add_wf(index, path, doc);
}

/// Adding the same document under the same path a second time changes nothing.
pub proof fn law_add_idempotent(index: IndexView, path: Seq<char>, doc: DocView)
    requires
        index.wf(),
        doc.wf(),
    ensures
        index.add(path, doc).add(path, doc) == index.add(path, doc),
{
    let once = index.add(path, doc);
    lemma_add_wf(index, path, doc);
    let twice = once.add(path, doc);
    assert(twice.docs =~= once.docs);
    assert(twice.df =~= once.df);
}

/// An index restored from a snapshot of an index holds what that index
/// holds: both say of every file alike whether it has to be indexed, and a
/// search finds the same in both.
pub proof fn law_snapshot_round_trip(
    source: &InMemoryIndexModel,
    snapshot: &Snapshot,
    restored: Option<InMemoryIndexModel>,
)
    requires
        source.wf(),
        snapshot@.valid() && snapshot@.index() == source@,
        restored is Some == snapshot@.valid(),
        restored matches Some(index) ==> index.wf() && index@ == snapshot@.index(),
    ensures
        restored matches Some(index) && index@ == source@ && (forall|
            path: Seq<char>,
            modified: Timestamp,
        |
            index@.stale(path, modified) == source@.stale(path, modified)) && (forall|
            found: Match,
            i: int,
            query: Seq<Seq<char>>,
        |
            found.matches(index@, i, query) == found.matches(source@, i, query)),
{
}

/// Removing documents one after the other keeps the index well formed.
pub proof fn lemma_remove_all_wf(index: IndexView, paths: Seq<Seq<char>>)
    requires
        index.wf(),
    ensures
        remove_all(index, paths).wf(),
    decreases paths.len(),
{
    if paths.len() > 0 {
        lemma_remove_wf(index, paths[0]);
        lemma_remove_all_wf(index.remove(paths[0]), paths.drop_first());
    }
}

/// The walk asks for the text of a file only where the index holds no
/// current state of it, and for the snapshot only when no entry is left to visit.
pub proof fn law_walk(cycle: RefreshView, index: IndexView, frames: Seq<Seq<Option<EntryView>>>)
    ensures
        cycle.walk(index, frames).1 matches ActionView::Extract(path, modified) ==> index.stale(
            path,
            modified,
        ),
        cycle.walk(index, frames).1 == ActionView::Persist ==> cycle.walk(index, frames).0.frames.len()
            == 0 && cycle.walk(index, frames).0.stage == Stage::Persisting,
        cycle.walk(index, frames).0.unchecked.len() > 0 ==> cycle.unchecked.len() > 0,
        cycle.walk(index, frames).0.vanished.len() > 0 ==> cycle.vanished.len() > 0,
        cycle.walk(index, frames).0.stage != Stage::Idle,
        cycle.walk(index, frames).0.stage != Stage::Pruning,
        !(cycle.walk(index, frames).1 is CheckExists),
    decreases pending(frames),
{
    if frames.len() > 0 {
        if frames.last().len() == 0 {
            law_walk(cycle, index, frames.drop_last());
        } else {
            lemma_pending_rest(frames);
            law_walk(cycle, index, frames.drop_last().push(frames.last().drop_first()));
        }
    }
}

/// What holds of the cycle at every step: while paths are being checked the
/// walk has not begun, and once it has begun no path is left to check or to remove.
pub open spec fn in_order(cycle: RefreshView) -> bool {
    match cycle.stage {
        Stage::Pruning => cycle.frames.len() == 0 && cycle.unchecked.len() > 0,
        Stage::Idle | Stage::Finished | Stage::Failed => true,
        Stage::Listing | Stage::Extracting | Stage::Persisting => cycle.unchecked.len() == 0
            && cycle.vanished.len() == 0,
    }
}

/// Every step keeps the cycle in order and the index well formed. Within a
/// cycle the check of the indexed paths comes before the walk and the walk
/// before the snapshot: a path is asked about only before the walk begins,
/// the index loses documents only as the check ends, and the snapshot is
/// asked for only when the walk is complete. A file is read only where the
/// index holds no current state of it, and a file that could not be read
/// leaves the index as it is.
pub proof fn law_step(cycle: RefreshView, index: IndexView, event: EventView)
    requires
        in_order(cycle),
        index.wf(),
    ensures
        in_order(cycle.step(index, event).0),
        cycle.step(index, event).1.wf(),
        cycle.step(index, event).2 is CheckExists ==> cycle.step(index, event).0.stage
            == Stage::Pruning,
        cycle.step(index, event).2 is Persist ==> cycle.step(index, event).0.stage
            == Stage::Persisting && cycle.step(index, event).0.frames.len() == 0 && (cycle.stage
            == Stage::Listing || cycle.stage == Stage::Extracting),
        cycle.step(index, event).2 matches ActionView::Extract(path, modified) ==> cycle.step(
            index,
            event,
        ).1.stale(path, modified),
        event == EventView::Content(None) ==> cycle.step(index, event).1 == index,
        cycle.stage != Stage::Pruning && !(event is Content) ==> cycle.step(index, event).1
            == index,
{
    match (cycle.stage, event) {
        (Stage::Pruning, EventView::Existence(Some(exists))) => {
            let vanished = if exists {
                cycle.vanished
            } else {
                cycle.vanished.push(cycle.unchecked[0])
            };
            lemma_remove_all_wf(index, vanished);
        },
        (Stage::Listing, EventView::Listing(Some(entries))) => {
            law_walk(cycle, index, cycle.frames.push(entries));
        },
        (Stage::Extracting, EventView::Content(text)) => {
            match (cycle.current, text) {
                (Some((path, modified)), Some(text)) => {
                    let doc = doc_of(tokens(text), modified);
                    lemma_term_counts_total(tokens(text));
                    lemma_add_wf(index, path, doc);
                    law_walk(cycle, index.add(path, doc), cycle.frames);
                },
                (Some(_), None) => {
                    law_walk(cycle, index, cycle.frames);
                },
                _ => {},
            }
        },
        _ => {},
    }
}

} // verus!
