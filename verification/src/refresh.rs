//! The refresh cycle: which paths to check, which directories to list and
//! which files to read, in which order, and what each answer does to the index.
//!
//! The cycle itself touches no file. It hands out one `Action` at a time and
//! takes the outcome back as one `Event`.

use vstd::prelude::*;
use crate::lexer::tokens;
use crate::model::InMemoryIndexModel;
use crate::time::Timestamp;
use crate::view::{doc_of, DocView, IndexView};

verus! {

/// One entry of a directory.
#[derive(Debug)]
pub struct Entry {
    pub path: String,
    pub modified: Timestamp,
    pub is_dir: bool,
}

/// What an entry is to the cycle.
pub ghost struct EntryView {
    pub path: Seq<char>,
    pub modified: Timestamp,
    pub is_dir: bool,
}

impl View for Entry {
    type V = EntryView;

    open spec fn view(&self) -> EntryView {
        EntryView { path: self.path@, modified: self.modified, is_dir: self.is_dir }
    }
}

/// The outcome of the action that was handed out last.
#[derive(Debug)]
pub enum Event {
    /// A cycle is due: at the start, and after each sleep.
    Wake,
    /// Whether the path asked about exists; `None` where that could not be told.
    Existence(Option<bool>),
    /// The entries of the directory asked about, `None` in place of one that
    /// could not be read; `None` for all where the directory could not be opened.
    Listing(Option<Vec<Option<Entry>>>),
    /// The characters of the text of the file asked about; `None` where the
    /// text could not be extracted.
    Content(Option<Vec<char>>),
    /// Whether the snapshot was written.
    Persisted(bool),
}

/// What is to be done next.
#[derive(Debug)]
pub enum Action {
    /// Find out whether this path still exists.
    CheckExists(String),
    /// List the entries of this directory.
    ListDir(String),
    /// Extract the text of this file, which was modified at the given time.
    Extract(String, Timestamp),
    /// Write a snapshot of the index.
    Persist,
    /// Wait for the next cycle.
    Sleep,
    /// The single cycle that was asked for is complete.
    Finish,
    /// The cycle cannot go on.
    Stop,
}

/// What an action is to the cycle.
pub ghost enum ActionView {
    CheckExists(Seq<char>),
    ListDir(Seq<char>),
    Extract(Seq<char>, Timestamp),
    Persist,
    Sleep,
    Finish,
    Stop,
}

impl View for Action {
    type V = ActionView;

    open spec fn view(&self) -> ActionView {
        match self {
            Action::CheckExists(p) => ActionView::CheckExists(p@),
            Action::ListDir(p) => ActionView::ListDir(p@),
            Action::Extract(p, m) => ActionView::Extract(p@, *m),
            Action::Persist => ActionView::Persist,
            Action::Sleep => ActionView::Sleep,
            Action::Finish => ActionView::Finish,
            Action::Stop => ActionView::Stop,
        }
    }
}

/// What an event is to the cycle.
pub ghost enum EventView {
    Wake,
    Existence(Option<bool>),
    Listing(Option<Seq<Option<EntryView>>>),
    Content(Option<Seq<char>>),
    Persisted(bool),
}

/// The entries of a listing as the cycle sees them.
pub open spec fn entries_view(entries: Seq<Option<Entry>>) -> Seq<Option<EntryView>> {
    Seq::new(
        entries.len(),
        |i: int|
            match entries[i] {
                Some(e) => Some(e@),
                None => None,
            },
    )
}

impl View for Event {
    type V = EventView;

    open spec fn view(&self) -> EventView {
        match self {
            Event::Wake => EventView::Wake,
            Event::Existence(e) => EventView::Existence(*e),
            Event::Listing(Some(entries)) => EventView::Listing(Some(entries_view(entries@))),
            Event::Listing(None) => EventView::Listing(None),
            Event::Content(Some(text)) => EventView::Content(Some(text@)),
            Event::Content(None) => EventView::Content(None),
            Event::Persisted(ok) => EventView::Persisted(*ok),
        }
    }
}

/// Where in the cycle the work stands, which tells what event is awaited.
#[derive(Clone, Copy, Debug, PartialEq, Eq, Structural)]
pub enum Stage {
    /// Between cycles; `Wake` starts the next.
    Idle,
    /// Checking the indexed paths; `Existence` is awaited.
    Pruning,
    /// Walking the tree; `Listing` is awaited.
    Listing,
    /// Walking the tree; `Content` is awaited.
    Extracting,
    /// The walk is complete; `Persisted` is awaited.
    Persisting,
    /// The single cycle that was asked for is complete.
    Finished,
    /// The cycle could not go on.
    Failed,
}

/// What the cycle holds.
pub ghost struct RefreshView {
    /// The directory that is indexed.
    pub root: Seq<char>,
    /// Whether a new cycle follows each completed one.
    pub repeat: bool,
    pub stage: Stage,
    /// Indexed paths that are still to be checked, the one asked about first.
    pub unchecked: Seq<Seq<char>>,
    /// Checked paths that no longer exist.
    pub vanished: Seq<Seq<char>>,
    /// The entries still to be visited of each directory that the walk is
    /// in, the innermost directory last.
    pub frames: Seq<Seq<Option<EntryView>>>,
    /// The file whose text is awaited, with its modification time.
    pub current: Option<(Seq<char>, Timestamp)>,
}

/// `index` without the documents under `paths`.
pub open spec fn remove_all(index: IndexView, paths: Seq<Seq<char>>) -> IndexView
    decreases paths.len(),
{
    if paths.len() == 0 {
        index
    } else {
        remove_all(index.remove(paths[0]), paths.drop_first())
    }
}

/// Number of steps that the walk can still take over `frames` without a new listing.
pub open spec fn pending(frames: Seq<Seq<Option<EntryView>>>) -> nat
    decreases frames.len(),
{
    if frames.len() == 0 {
        0
    } else {
        pending(frames.drop_last()) + frames.last().len() + 1
    }
}

/// With the first entry of the innermost directory visited, one step less is pending.
pub proof fn lemma_pending_rest(frames: Seq<Seq<Option<EntryView>>>)
    requires
        frames.len() > 0,
        frames.last().len() > 0,
    ensures
        pending(frames.drop_last().push(frames.last().drop_first())) + 1 == pending(frames),
{
    let rest = frames.drop_last().push(frames.last().drop_first());
    assert(rest.drop_last() == frames.drop_last());
}

impl RefreshView {
    /// The cycle after it failed.
    pub open spec fn failed(self) -> RefreshView {
        RefreshView {
            stage: Stage::Failed,
            unchecked: Seq::empty(),
            vanished: Seq::empty(),
            frames: Seq::empty(),
            current: None,
            ..self
        }
    }

    /// The walk goes on from `frames`: entries are visited in their order, a
    /// directory is listed and walked before the entries that follow it, a
    /// file is read where the index holds no current state of it, and the
    /// snapshot is due when nothing is left. An unreadable entry ends the cycle.
    pub open spec fn walk(self, index: IndexView, frames: Seq<Seq<Option<EntryView>>>) -> (
        RefreshView,
        ActionView,
    )
        decreases pending(frames),
        via Self::walk_terminates
    {
        if frames.len() == 0 {
            (
                RefreshView { stage: Stage::Persisting, frames, current: None, ..self },
                ActionView::Persist,
            )
        } else if frames.last().len() == 0 {
            self.walk(index, frames.drop_last())
        } else {
            let rest = frames.drop_last().push(frames.last().drop_first());
            match frames.last()[0] {
                None => (self.failed(), ActionView::Stop),
                Some(e) => if e.is_dir {
                    (
                        RefreshView { stage: Stage::Listing, frames: rest, current: None, ..self },
                        ActionView::ListDir(e.path),
                    )
                } else if index.stale(e.path, e.modified) {
                    (
                        RefreshView {
                            stage: Stage::Extracting,
                            frames: rest,
                            current: Some((e.path, e.modified)),
                            ..self
                        },
                        ActionView::Extract(e.path, e.modified),
                    )
                } else {
                    self.walk(index, rest)
                },
            }
        }
    }

    #[via_fn]
    proof fn walk_terminates(self, index: IndexView, frames: Seq<Seq<Option<EntryView>>>) {
        if frames.len() > 0 && frames.last().len() > 0 {
            lemma_pending_rest(frames);
        }
    }

    /// The cycle, the index and the next action after `event`.
    pub open spec fn step(self, index: IndexView, event: EventView) -> (
        RefreshView,
        IndexView,
        ActionView,
    ) {
        match (self.stage, event) {
            (Stage::Idle, EventView::Wake) => {
                let paths = index.docs.map_values(|d: (Seq<char>, DocView)| d.0);
                if paths.len() == 0 {
                    (
                        RefreshView {
                            stage: Stage::Listing,
                            unchecked: Seq::empty(),
                            vanished: Seq::empty(),
                            frames: Seq::empty(),
                            current: None,
                            ..self
                        },
                        index,
                        ActionView::ListDir(self.root),
                    )
                } else {
                    (
                        RefreshView {
                            stage: Stage::Pruning,
                            unchecked: paths,
                            vanished: Seq::empty(),
                            frames: Seq::empty(),
                            current: None,
                            ..self
                        },
                        index,
                        ActionView::CheckExists(paths[0]),
                    )
                }
            },
            (Stage::Pruning, EventView::Existence(Some(exists))) => {
                if self.unchecked.len() == 0 {
                    (self.failed(), index, ActionView::Stop)
                } else {
                    let vanished = if exists {
                        self.vanished
                    } else {
                        self.vanished.push(self.unchecked[0])
                    };
                    let unchecked = self.unchecked.drop_first();
                    if unchecked.len() > 0 {
                        (
                            RefreshView { unchecked, vanished, ..self },
                            index,
                            ActionView::CheckExists(unchecked[0]),
                        )
                    } else {
                        (
                            RefreshView {
                                stage: Stage::Listing,
                                unchecked,
                                vanished: Seq::empty(),
                                ..self
                            },
                            remove_all(index, vanished),
                            ActionView::ListDir(self.root),
                        )
                    }
                }
            },
            (Stage::Listing, EventView::Listing(Some(entries))) => {
                let (next, action) = self.walk(index, self.frames.push(entries));
                (next, index, action)
            },
            (Stage::Extracting, EventView::Content(text)) => {
                match (self.current, text) {
                    (Some((path, modified)), Some(text)) => {
                        let grown = index.add(path, doc_of(tokens(text), modified));
                        let (next, action) = self.walk(grown, self.frames);
                        (next, grown, action)
                    },
                    (Some(_), None) => {
                        let (next, action) = self.walk(index, self.frames);
                        (next, index, action)
                    },
                    (None, _) => (self.failed(), index, ActionView::Stop),
                }
            },
            (Stage::Persisting, EventView::Persisted(true)) => {
                if self.repeat {
                    (RefreshView { stage: Stage::Idle, ..self }, index, ActionView::Sleep)
                } else {
                    (RefreshView { stage: Stage::Finished, ..self }, index, ActionView::Finish)
                }
            },
            _ => (self.failed(), index, ActionView::Stop),
        }
    }
}

/// Where the walk goes from given entries does not depend on the stage, the
/// entries and the file that the cycle held before.
pub proof fn lemma_walk_from(
    a: RefreshView,
    b: RefreshView,
    index: IndexView,
    frames: Seq<Seq<Option<EntryView>>>,
)
    requires
        a.root == b.root,
        a.repeat == b.repeat,
        a.unchecked == b.unchecked,
        a.vanished == b.vanished,
    ensures
        a.walk(index, frames) == b.walk(index, frames),
    decreases pending(frames),
{
    if frames.len() > 0 {
        if frames.last().len() == 0 {
            lemma_walk_from(a, b, index, frames.drop_last());
        } else {
            lemma_pending_rest(frames);
            lemma_walk_from(a, b, index, frames.drop_last().push(frames.last().drop_first()));
        }
    }
}

/// The strings of `v` as sequences of characters.
pub open spec fn strings_view(v: Seq<String>) -> Seq<Seq<char>> {
    Seq::new(v.len(), |i: int| v[i]@)
}

/// The entries of one directory with the place up to which they were visited.
struct Frame {
    entries: Vec<Option<Entry>>,
    next: usize,
}

impl Frame {
    /// The entries still to be visited.
    spec fn rest(&self) -> Seq<Option<EntryView>> {
        entries_view(self.entries@).skip(self.next as int)
    }
}

/// The state of the refresh cycle of one directory.
pub struct Refresh {
    root: String,
    repeat: bool,
    stage: Stage,
    unchecked: Vec<String>,
    checked: usize,
    vanished: Vec<String>,
    frames: Vec<Frame>,
    current: Option<(String, Timestamp)>,
}

impl View for Refresh {
    type V = RefreshView;

    closed spec fn view(&self) -> RefreshView {
        RefreshView {
            root: self.root@,
            repeat: self.repeat,
            stage: self.stage,
            unchecked: strings_view(self.unchecked@).skip(self.checked as int),
            vanished: strings_view(self.vanished@),
            frames: Seq::new(self.frames@.len(), |i: int| self.frames@[i].rest()),
            current: match self.current {
                Some((path, modified)) => Some((path@, modified)),
                None => None,
            },
        }
    }
}

/// Takes the documents under `paths` out of `index`, in the order of `paths`.
fn forget(index: &mut InMemoryIndexModel, paths: &Vec<String>)
    requires
        old(index).wf(),
    ensures
        final(index).wf(),
        final(index)@ == remove_all(old(index)@, strings_view(paths@)),
{
    let ghost all = strings_view(paths@);
    let mut i: usize = 0;
    assert(all.skip(0) == all);
    while i < paths.len()
        invariant
            i <= paths@.len(),
            all == strings_view(paths@),
            index.wf(),
            remove_all(index@, all.skip(i as int)) == remove_all(old(index)@, all),
        decreases paths@.len() - i,
    {
        assert(all.skip(i as int).drop_first() == all.skip(i + 1));
        index.remove_document(paths[i].as_str());
        i += 1;
    }
}

impl Refresh {
    /// The cursors are within what they run over.
    pub closed spec fn wf(&self) -> bool {
        &&& self.checked <= self.unchecked@.len()
        &&& forall|i: int|
            0 <= i < self.frames@.len() ==> (#[trigger] self.frames@[i]).next
                <= self.frames@[i].entries@.len()
    }

    /// A cycle over the directory `root` that has not started. With `repeat`
    /// a new cycle follows each completed one; without it the cycle runs once.
    pub fn new(root: String, repeat: bool) -> (cycle: Refresh)
        ensures
            cycle.wf(),
            cycle@ == (RefreshView {
                root: root@,
                repeat,
                stage: Stage::Idle,
                unchecked: Seq::empty(),
                vanished: Seq::empty(),
                frames: Seq::empty(),
                current: None,
            }),
    {
        let cycle = Refresh {
            root,
            repeat,
            stage: Stage::Idle,
            unchecked: Vec::new(),
            checked: 0,
            vanished: Vec::new(),
            frames: Vec::new(),
            current: None,
        };
        assert(cycle@.unchecked =~= Seq::empty());
        assert(cycle@.vanished =~= Seq::empty());
        assert(cycle@.frames =~= Seq::empty());
        cycle
    }

    /// Where in the cycle the work stands.
    pub fn stage(&self) -> (stage: Stage)
        ensures
            stage == self@.stage,
    {
        self.stage
    }

    /// Gives the cycle up.
    fn fail(&mut self) -> (action: Action)
        ensures
            final(self).wf(),
            final(self)@ == old(self)@.failed(),
            action@ == ActionView::Stop,
    {
        self.stage = Stage::Failed;
        self.unchecked = Vec::new();
        self.checked = 0;
        self.vanished = Vec::new();
        self.frames = Vec::new();
        self.current = None;
        assert(self@.unchecked =~= Seq::empty());
        assert(self@.vanished =~= Seq::empty());
        assert(self@.frames =~= Seq::empty());
        Action::Stop
    }

    /// Goes on with the walk until something has to be asked for.
    fn walk(&mut self, index: &InMemoryIndexModel) -> (action: Action)
        requires
            old(self).wf(),
            index.wf(),
        ensures
            final(self).wf(),
            (final(self)@, action@) == old(self)@.walk(index@, old(self)@.frames),
    {
        let ghost start = self@;
        loop
            invariant
                self.wf(),
                index.wf(),
                start == old(self)@,
                self@.root == start.root,
                self@.repeat == start.repeat,
                self@.unchecked == start.unchecked,
                self@.vanished == start.vanished,
                start.walk(index@, self@.frames) == start.walk(index@, start.frames),
            decreases pending(self@.frames),
        {
            let ghost frames = self@.frames;
            let open = self.frames.len();
            if open == 0 {
                self.stage = Stage::Persisting;
                self.current = None;
                return Action::Persist;
            }
            let mut top = match self.frames.pop() {
                Some(top) => top,
                None => {
                    return self.fail();
                },
            };
            assert(self@.frames =~= frames.drop_last());
            if top.next >= top.entries.len() {
                continue ;
            }
            let at = top.next;
            let visit = match &top.entries[at] {
                Some(e) => Some((e.path.clone(), e.modified, e.is_dir)),
                None => None,
            };
            top.next = at + 1;
            assert(top.rest() == frames.last().drop_first());
            proof {
                lemma_pending_rest(frames);
            }
            self.frames.push(top);
            assert(self@.frames =~= frames.drop_last().push(frames.last().drop_first()));
            match visit {
                None => {
                    return self.fail();
                },
                Some((path, modified, is_dir)) => {
                    if is_dir {
                        self.stage = Stage::Listing;
                        self.current = None;
                        return Action::ListDir(path);
                    }
                    if index.requires_reindexing(path.as_str(), modified) {
                        self.stage = Stage::Extracting;
                        self.current = Some((path.clone(), modified));
                        return Action::Extract(path, modified);
                    }
                },
            }
        }
    }

    /// A cycle starts: the indexed paths are to be checked, or, where none
    /// is indexed, the walk begins.
    fn on_wake(&mut self, index: &InMemoryIndexModel) -> (action: Action)
        requires
            old(self).wf(),
            index.wf(),
        ensures
            final(self).wf(),
            (final(self)@, index@, action@) == old(self)@.step(index@, EventView::Wake),
    {
        match self.stage {
            Stage::Idle => {},
            _ => {
                return self.fail();
            },
        }
        let paths = index.paths();
        assert(strings_view(paths@) =~= index@.docs.map_values(
            |d: (Seq<char>, DocView)| d.0,
        ));
        self.vanished = Vec::new();
        self.frames = Vec::new();
        self.current = None;
        self.checked = 0;
        assert(self@.vanished =~= Seq::empty());
        assert(self@.frames =~= Seq::empty());
        if paths.len() == 0 {
            self.unchecked = paths;
            self.stage = Stage::Listing;
            assert(self@.unchecked =~= Seq::empty());
            Action::ListDir(self.root.clone())
        } else {
            let first = paths[0].clone();
            self.unchecked = paths;
            self.stage = Stage::Pruning;
            assert(self@.unchecked =~= strings_view(self.unchecked@));
            Action::CheckExists(first)
        }
    }

    /// One path was checked: the next is asked about, or, after the last,
    /// the paths that vanished leave the index and the walk begins.
    fn on_existence(&mut self, index: &mut InMemoryIndexModel, exists: bool) -> (action: Action)
        requires
            old(self).wf(),
            old(index).wf(),
        ensures
            final(self).wf(),
            final(index).wf(),
            (final(self)@, final(index)@, action@) == old(self)@.step(
                old(index)@,
                EventView::Existence(Some(exists)),
            ),
    {
        match self.stage {
            Stage::Pruning => {},
            _ => {
                return self.fail();
            },
        }
        if self.checked >= self.unchecked.len() {
            return self.fail();
        }
        let ghost before = self@;
        if !exists {
            self.vanished.push(self.unchecked[self.checked].clone());
            assert(self@.vanished =~= before.vanished.push(before.unchecked[0]));
        }
        self.checked = self.checked + 1;
        assert(self@.unchecked =~= before.unchecked.drop_first());
        if self.checked < self.unchecked.len() {
            Action::CheckExists(self.unchecked[self.checked].clone())
        } else {
            forget(index, &self.vanished);
            self.vanished = Vec::new();
            self.stage = Stage::Listing;
            assert(self@.vanished =~= Seq::empty());
            Action::ListDir(self.root.clone())
        }
    }

    /// A directory was listed: the walk goes on with its entries.
    fn on_listing(&mut self, index: &InMemoryIndexModel, entries: Vec<Option<Entry>>) -> (action:
        Action)
        requires
            old(self).wf(),
            index.wf(),
        ensures
            final(self).wf(),
            (final(self)@, index@, action@) == old(self)@.step(
                index@,
                EventView::Listing(Some(entries_view(entries@))),
            ),
    {
        match self.stage {
            Stage::Listing => {},
            _ => {
                return self.fail();
            },
        }
        let ghost before = self@;
        let ghost listed = entries_view(entries@);
        self.frames.push(Frame { entries, next: 0 });
        assert(self.frames@.last().rest() =~= listed);
        assert(self@.frames =~= before.frames.push(listed));
        proof {
            lemma_walk_from(self@, before, index@, self@.frames);
        }
        self.walk(index)
    }

    /// The text of a file came back, or did not: a text is indexed under
    /// the path of the file, and the walk goes on either way.
    fn on_content(&mut self, index: &mut InMemoryIndexModel, text: Option<Vec<char>>) -> (action:
        Action)
        requires
            old(self).wf(),
            old(index).wf(),
        ensures
            final(self).wf(),
            final(index).wf(),
            (final(self)@, final(index)@, action@) == old(self)@.step(
                old(index)@,
                EventView::Content(
                    match text {
                        Some(t) => Some(t@),
                        None => None,
                    },
                ),
            ),
    {
        match self.stage {
            Stage::Extracting => {},
            _ => {
                return self.fail();
            },
        }
        let current = match &self.current {
            Some((path, modified)) => Some((path.clone(), *modified)),
            None => None,
        };
        match current {
            None => self.fail(),
            Some((path, modified)) => {
                match text {
                    Some(text) => {
                        let _ = index.add_document(path, text.as_slice(), modified);
                    },
                    None => {},
                }
                self.walk(index)
            },
        }
    }

    /// The snapshot was written: the cycle is complete.
    fn on_persisted(&mut self) -> (action: Action)
        requires
            old(self).wf(),
        ensures
            final(self).wf(),
            forall|index: IndexView|
                (final(self)@, index, action@) == #[trigger] old(self)@.step(
                    index,
                    EventView::Persisted(true),
                ),
    {
        match self.stage {
            Stage::Persisting => {},
            _ => {
                return self.fail();
            },
        }
        if self.repeat {
            self.stage = Stage::Idle;
            Action::Sleep
        } else {
            self.stage = Stage::Finished;
            Action::Finish
        }
    }

    /// Takes the outcome of the last action and says what is to be done next.
    /// Whatever the outcome changes in the index is done here: paths that
    /// vanished leave it once all paths were checked, and a text that was
    /// extracted is indexed under its path.
    pub fn step(&mut self, index: &mut InMemoryIndexModel, event: Event) -> (action: Action)
        requires
            old(self).wf(),
            old(index).wf(),
        ensures
            final(self).wf(),
            final(index).wf(),
            (final(self)@, final(index)@, action@) == old(self)@.step(old(index)@, event@),
    {
        match event {
            Event::Wake => self.on_wake(index),
            Event::Existence(Some(exists)) => self.on_existence(index, exists),
            Event::Listing(Some(entries)) => self.on_listing(index, entries),
            Event::Content(text) => self.on_content(index, text),
            Event::Persisted(true) => self.on_persisted(),
            _ => self.fail(),
        }
    }
}

} // verus!
