use loser::model::InMemoryIndexModel;
use loser::time::Timestamp;
use loser::refresh::{Action, Entry, Event, Refresh, Stage};

fn text(s: &str) -> Vec<char> {
    s.chars().collect()
}

fn file(path: &str, secs: u64) -> Option<Entry> {
    Some(Entry { path: path.to_string(), modified: Timestamp { secs, nanos: 0 }, is_dir: false })
}

fn dir(path: &str) -> Option<Entry> {
    Some(Entry { path: path.to_string(), modified: Timestamp { secs: 0, nanos: 0 }, is_dir: true })
}

fn show(action: Action) -> String {
    match action {
        Action::CheckExists(p) => format!("check {p}"),
        Action::ListDir(p) => format!("list {p}"),
        Action::Extract(p, m) => format!("extract {p} {}", m.secs),
        Action::Persist => "persist".to_string(),
        Action::Sleep => "sleep".to_string(),
        Action::Finish => "finish".to_string(),
        Action::Stop => "stop".to_string(),
    }
}

#[test]
fn a_cycle_walks_the_tree_in_order() {
    let mut index = InMemoryIndexModel::new();
    let mut cycle = Refresh::new("root".to_string(), true);
    assert_eq!(cycle.stage(), Stage::Idle);
    // Nothing is indexed: the walk begins at once.
    assert_eq!(show(cycle.step(&mut index, Event::Wake)), "list root");
    assert_eq!(cycle.stage(), Stage::Listing);
    let listing = vec![file("root/a.txt", 1), dir("root/sub"), file("root/z.txt", 3)];
    assert_eq!(show(cycle.step(&mut index, Event::Listing(Some(listing)))), "extract root/a.txt 1");
    assert_eq!(cycle.stage(), Stage::Extracting);
    let content = Event::Content(Some(text("Andy is Andy.")));
    assert_eq!(show(cycle.step(&mut index, content)), "list root/sub");
    assert_eq!(index.paths(), vec!["root/a.txt".to_string()]);
    let listing = vec![file("root/sub/b.txt", 2)];
    assert_eq!(
        show(cycle.step(&mut index, Event::Listing(Some(listing)))),
        "extract root/sub/b.txt 2"
    );
    // A file that cannot be read is left out, and the walk goes on.
    assert_eq!(show(cycle.step(&mut index, Event::Content(None))), "extract root/z.txt 3");
    assert_eq!(index.paths(), vec!["root/a.txt".to_string()]);
    assert_eq!(show(cycle.step(&mut index, Event::Content(Some(text("Amy"))))), "persist");
    assert_eq!(cycle.stage(), Stage::Persisting);
    assert_eq!(index.paths(), vec!["root/a.txt".to_string(), "root/z.txt".to_string()]);
    assert_eq!(index.document("root/z.txt").unwrap().last_modified().secs, 3);
    assert_eq!(show(cycle.step(&mut index, Event::Persisted(true))), "sleep");
    assert_eq!(cycle.stage(), Stage::Idle);
}

#[test]
fn a_cycle_checks_the_indexed_paths_first() {
    let mut index = InMemoryIndexModel::new();
    index.add_document("a".to_string(), &text("Andy"), Timestamp { secs: 1, nanos: 0 }).unwrap();
    index.add_document("b".to_string(), &text("Amy"), Timestamp { secs: 1, nanos: 0 }).unwrap();
    index.add_document("c".to_string(), &text("Andy"), Timestamp { secs: 1, nanos: 0 }).unwrap();
    let mut cycle = Refresh::new("root".to_string(), true);
    assert_eq!(show(cycle.step(&mut index, Event::Wake)), "check a");
    assert_eq!(cycle.stage(), Stage::Pruning);
    assert_eq!(show(cycle.step(&mut index, Event::Existence(Some(false)))), "check b");
    // Nothing leaves the index before every path was checked.
    assert_eq!(index.len(), 3);
    assert_eq!(show(cycle.step(&mut index, Event::Existence(Some(true)))), "check c");
    assert_eq!(show(cycle.step(&mut index, Event::Existence(Some(false)))), "list root");
    assert_eq!(index.paths(), vec!["b".to_string()]);
    assert_eq!(index.document_frequency("ANDY"), Some(0));
    assert_eq!(show(cycle.step(&mut index, Event::Listing(Some(vec![])))), "persist");
}

#[test]
fn a_cycle_skips_files_that_have_not_changed() {
    let mut index = InMemoryIndexModel::new();
    index.add_document("root/a".to_string(), &text("Andy"), Timestamp { secs: 5, nanos: 0 }).unwrap();
    let mut cycle = Refresh::new("root".to_string(), false);
    assert_eq!(show(cycle.step(&mut index, Event::Wake)), "check root/a");
    assert_eq!(show(cycle.step(&mut index, Event::Existence(Some(true)))), "list root");
    let listing = vec![file("root/a", 5), file("root/a", 4), dir("root/empty"), file("root/a", 6)];
    assert_eq!(show(cycle.step(&mut index, Event::Listing(Some(listing)))), "list root/empty");
    assert_eq!(show(cycle.step(&mut index, Event::Listing(Some(vec![])))), "extract root/a 6");
    assert_eq!(show(cycle.step(&mut index, Event::Content(Some(text("Amy"))))), "persist");
    assert_eq!(index.document("root/a").unwrap().last_modified().secs, 6);
    // Without repetition the cycle ends after the snapshot.
    assert_eq!(show(cycle.step(&mut index, Event::Persisted(true))), "finish");
    assert_eq!(cycle.stage(), Stage::Finished);
    assert_eq!(show(cycle.step(&mut index, Event::Wake)), "stop");
    assert_eq!(cycle.stage(), Stage::Failed);
}

#[test]
fn a_cycle_stops_where_it_cannot_go_on() {
    let mut index = InMemoryIndexModel::new();
    index.add_document("a".to_string(), &text("Andy"), Timestamp { secs: 1, nanos: 0 }).unwrap();

    // The existence of a path cannot be told.
    let mut cycle = Refresh::new("root".to_string(), true);
    assert_eq!(show(cycle.step(&mut index, Event::Wake)), "check a");
    assert_eq!(show(cycle.step(&mut index, Event::Existence(None))), "stop");
    assert_eq!(cycle.stage(), Stage::Failed);
    assert_eq!(index.len(), 1);
    assert_eq!(show(cycle.step(&mut index, Event::Wake)), "stop");

    // A directory cannot be opened.
    let mut cycle = Refresh::new("root".to_string(), true);
    cycle.step(&mut index, Event::Wake);
    assert_eq!(show(cycle.step(&mut index, Event::Existence(Some(true)))), "list root");
    assert_eq!(show(cycle.step(&mut index, Event::Listing(None))), "stop");

    // An entry cannot be read: what came before it was visited.
    let mut cycle = Refresh::new("root".to_string(), true);
    cycle.step(&mut index, Event::Wake);
    cycle.step(&mut index, Event::Existence(Some(true)));
    let listing = vec![file("root/b", 1), None, file("root/c", 1)];
    assert_eq!(show(cycle.step(&mut index, Event::Listing(Some(listing)))), "extract root/b 1");
    assert_eq!(show(cycle.step(&mut index, Event::Content(Some(text("Amy"))))), "stop");
    assert_eq!(index.paths(), vec!["a".to_string(), "root/b".to_string()]);

    // The snapshot cannot be written.
    let mut cycle = Refresh::new("root".to_string(), true);
    cycle.step(&mut index, Event::Wake);
    cycle.step(&mut index, Event::Existence(Some(true)));
    cycle.step(&mut index, Event::Existence(Some(true)));
    assert_eq!(show(cycle.step(&mut index, Event::Listing(Some(vec![])))), "persist");
    assert_eq!(show(cycle.step(&mut index, Event::Persisted(false))), "stop");
}

#[test]
fn a_cycle_stops_on_an_event_that_is_not_awaited() {
    let mut index = InMemoryIndexModel::new();
    let mut cycle = Refresh::new("root".to_string(), true);
    assert_eq!(show(cycle.step(&mut index, Event::Persisted(true))), "stop");
    let mut cycle = Refresh::new("root".to_string(), true);
    assert_eq!(show(cycle.step(&mut index, Event::Content(Some(text("Amy"))))), "stop");
    assert_eq!(index.len(), 0);
    let mut cycle = Refresh::new("root".to_string(), true);
    cycle.step(&mut index, Event::Wake);
    assert_eq!(show(cycle.step(&mut index, Event::Existence(Some(true)))), "stop");
    let mut cycle = Refresh::new("root".to_string(), true);
    cycle.step(&mut index, Event::Wake);
    assert_eq!(show(cycle.step(&mut index, Event::Wake)), "stop");
}

#[test]
fn a_second_cycle_follows_the_first() {
    let mut index = InMemoryIndexModel::new();
    let mut cycle = Refresh::new("root".to_string(), true);
    cycle.step(&mut index, Event::Wake);
    cycle.step(&mut index, Event::Listing(Some(vec![file("root/a", 1)])));
    cycle.step(&mut index, Event::Content(Some(text("Andy"))));
    assert_eq!(show(cycle.step(&mut index, Event::Persisted(true))), "sleep");
    assert_eq!(show(cycle.step(&mut index, Event::Wake)), "check root/a");
    assert_eq!(show(cycle.step(&mut index, Event::Existence(Some(true)))), "list root");
    assert_eq!(show(cycle.step(&mut index, Event::Listing(Some(vec![file("root/a", 1)])))), "persist");
}
