use loser::model::InMemoryIndexModel;
use loser::time::Timestamp;
use loser::rank::rank_descending;
use std::collections::HashMap;
use std::ops::Add;
use std::time::{Duration, SystemTime, UNIX_EPOCH};

fn stamp(time: SystemTime) -> Timestamp {
    let since = time.duration_since(UNIX_EPOCH).unwrap();
    Timestamp { secs: since.as_secs(), nanos: since.subsec_nanos() }
}

fn table(entries: Vec<(String, usize)>) -> HashMap<String, usize> {
    let n = entries.len();
    let map: HashMap<String, usize> = entries.into_iter().collect();
    assert_eq!(map.len(), n);
    map
}

fn scores(model: &InMemoryIndexModel, query: &str) -> Vec<(String, f32)> {
    let query = query.to_string().chars().collect::<Vec<_>>();
    let found = model.search(&query).unwrap();
    let mut ranks: Vec<f32> = Vec::new();
    for hit in &found {
        let mut rank = 0_f32;
        for w in &hit.weights {
            let tf = if w.total_tokens == 0 {
                0_f32
            } else {
                w.occurrences as f32 / w.total_tokens as f32
            };
            let idf = (w.documents as f32 / w.document_frequency as f32).log10();
            rank += tf * idf;
        }
        ranks.push(rank);
    }
    let keys: Vec<u32> = ranks.iter().map(|r| r.to_bits()).collect();
    rank_descending(&keys)
        .into_iter()
        .map(|i| (found[i].path.clone(), ranks[i]))
        .collect()
}

#[test]
fn add_document_ok() -> Result<(), ()> {
    // arrange
    let mut model = InMemoryIndexModel::new();
    let path = String::from("test/test.txt");
    let content = String::from("Andy is Andy.");
    let time = SystemTime::now();

    let expected_tf = HashMap::from([
        ("ANDY".to_string(), 2),
        ("IS".to_string(), 1),
        (".".to_string(), 1),
    ]);
    let expected_total_tokens = 4;
    let expected_df = HashMap::from([
        ("ANDY".to_string(), 1),
        ("IS".to_string(), 1),
        (".".to_string(), 1),
    ]);

    // act
    model.add_document(path.clone(), &content.chars().collect::<Vec<char>>(), stamp(time))?;

    // assert
    assert_eq!(model.paths(), vec![path.clone()]);
    let doc = model.document(&path).unwrap();
    assert_eq!(table(doc.term_frequencies()), expected_tf);
    assert_eq!(doc.total_tokens(), expected_total_tokens);
    assert_eq!(doc.last_modified(), stamp(time));
    assert_eq!(table(model.document_frequencies()), expected_df);

    Ok(())
}

#[test]
fn search_ok() -> Result<(), ()> {
    // arrange
    let mut model = InMemoryIndexModel::new();
    let path1 = String::from("test/test.txt");
    let content1 = String::from("Andy is Andy.");
    model.add_document(
        path1.clone(),
        &content1.chars().collect::<Vec<char>>(),
        stamp(SystemTime::now()),
    )?;
    let path2 = String::from("test/test2.txt");
    let content2 = String::from("Amy is Amy.");
    model.add_document(
        path2.clone(),
        &content2.chars().collect::<Vec<char>>(),
        stamp(SystemTime::now()),
    )?;

    let value1 = 0.5_f32 * (2_f32 / 1_f32).log10(); // tf * idf
    let expected = vec![(path1.clone(), value1), (path2.clone(), 0_f32)];

    // act
    let actual = scores(&model, "andy");

    // assert
    assert_eq!(expected, actual);

    Ok(())
}

#[test]
fn requires_reindexing_ok() -> Result<(), ()> {
    // arrange
    let mut model = InMemoryIndexModel::new();
    let file_path = String::from("test/test.txt");
    let content = String::from("Andy is Andy.");
    let time = SystemTime::now();

    model.add_document(
        file_path.clone(),
        &content.chars().collect::<Vec<char>>(),
        stamp(time),
    )?;

    // act
    let actual = model.requires_reindexing(&file_path, stamp(time.add(Duration::from_secs(10))));

    // assert
    assert!(actual);

    Ok(())
}

#[test]
fn remove_document_ok() -> Result<(), ()> {
    // arrange
    let mut model = InMemoryIndexModel::new();
    let file_path1 = String::from("test/test1.txt");
    let content1 = String::from("Andy is Andy.");
    let file_path2 = String::from("test/test2.txt");
    let content2 = String::from("Amy is Amy.");
    let time = stamp(SystemTime::now());

    model.add_document(
        file_path1.clone(),
        &content1.chars().collect::<Vec<char>>(),
        time,
    )?;

    model.add_document(
        file_path2.clone(),
        &content2.chars().collect::<Vec<char>>(),
        time,
    )?;

    // act && assert
    assert_eq!(model.paths().iter().count(), 2);
    assert_eq!(
        model.document_frequency("ANDY").and_then(|count| Some(count as i32)),
        Some(1)
    );
    assert_eq!(
        model.document_frequency("IS").and_then(|count| Some(count as i32)),
        Some(2)
    );

    model.remove_document(&file_path1);

    assert_eq!(model.paths().iter().count(), 1);
    assert_eq!(
        model.document_frequency("ANDY").and_then(|count| Some(count as i32)),
        Some(0)
    );
    assert_eq!(
        model.document_frequency("IS").and_then(|count| Some(count as i32)),
        Some(1)
    );

    Ok(())
}

fn chars(text: &str) -> Vec<char> {
    text.chars().collect()
}

fn at(secs: u64) -> Timestamp {
    Timestamp { secs, nanos: 0 }
}

fn two_documents() -> InMemoryIndexModel {
    let mut model = InMemoryIndexModel::new();
    model.add_document("A".to_string(), &chars("Andy is Andy."), at(1)).unwrap();
    model.add_document("B".to_string(), &chars("Amy is Amy."), at(2)).unwrap();
    model
}

#[test]
fn new_index_is_empty() {
    let model = InMemoryIndexModel::new();
    assert_eq!(model.len(), 0);
    assert!(model.paths().is_empty());
    assert!(model.document_frequencies().is_empty());
    assert!(model.document("A").is_none());
    assert_eq!(model.document_frequency("ANDY"), None);
    assert!(model.search(&chars("andy")).unwrap().is_empty());
}

#[test]
fn total_tokens_is_the_sum_of_the_term_frequencies() {
    let model = two_documents();
    for path in model.paths() {
        let doc = model.document(&path).unwrap();
        let sum: usize = doc.term_frequencies().iter().map(|(_, count)| *count).sum();
        assert_eq!(doc.total_tokens(), sum);
        assert_eq!(doc.total_tokens(), 4);
    }
}

#[test]
fn a_document_without_tokens_has_no_terms() {
    let mut model = InMemoryIndexModel::new();
    model.add_document("empty".to_string(), &chars("  \n"), at(1)).unwrap();
    let doc = model.document("empty").unwrap();
    assert_eq!(doc.total_tokens(), 0);
    assert!(doc.term_frequencies().is_empty());
    assert!(model.document_frequencies().is_empty());
    let found = model.search(&chars("andy")).unwrap();
    assert_eq!(found.len(), 1);
    assert_eq!(found[0].weights[0].occurrences, 0);
    assert_eq!(found[0].weights[0].total_tokens, 0);
    assert_eq!(scores(&model, "andy"), vec![("empty".to_string(), 0_f32)]);
}

#[test]
fn document_frequency_counts_the_documents_that_hold_a_token() {
    let model = two_documents();
    let expected = HashMap::from([
        ("ANDY".to_string(), 1),
        ("IS".to_string(), 2),
        (".".to_string(), 2),
        ("AMY".to_string(), 1),
    ]);
    assert_eq!(table(model.document_frequencies()), expected);
    for (term, frequency) in model.document_frequencies() {
        let holders = model
            .paths()
            .iter()
            .filter(|path| model.document(path).unwrap().term_frequency(&term).is_some())
            .count();
        assert_eq!(frequency, holders);
    }
}

#[test]
fn term_frequencies_come_in_order_of_first_occurrence() {
    let model = two_documents();
    let doc = model.document("A").unwrap();
    assert_eq!(
        doc.term_frequencies(),
        vec![("ANDY".to_string(), 2), ("IS".to_string(), 1), (".".to_string(), 1)]
    );
    assert_eq!(doc.term_frequency("ANDY"), Some(2));
    assert_eq!(doc.term_frequency("AMY"), None);
    assert_eq!(doc.last_modified(), at(1));
}

#[test]
fn scenario_two_documents() {
    let model = two_documents();
    let found = model.search(&chars("andy")).unwrap();
    assert_eq!(found.len(), 2);
    assert_eq!(found[0].path, "A");
    assert_eq!(found[0].weights.len(), 1);
    assert_eq!(found[0].weights[0].occurrences, 2);
    assert_eq!(found[0].weights[0].total_tokens, 4);
    assert_eq!(found[0].weights[0].documents, 2);
    assert_eq!(found[0].weights[0].document_frequency, 1);
    assert_eq!(found[1].path, "B");
    assert_eq!(found[1].weights[0].occurrences, 0);
    assert_eq!(
        scores(&model, "andy"),
        vec![("A".to_string(), 0.5_f32 * 2_f32.log10()), ("B".to_string(), 0_f32)]
    );
}

#[test]
fn scenario_remove_after_two_documents() {
    let mut model = two_documents();
    model.remove_document("A");
    assert_eq!(model.document_frequency("ANDY"), Some(0));
    assert!(model.document("A").is_none());
    assert_eq!(model.paths(), vec!["B".to_string()]);
    let found = model.search(&chars("andy")).unwrap();
    assert_eq!(found.len(), 1);
    assert_eq!(found[0].weights[0].occurrences, 0);
    // A frequency of zero counts as one.
    assert_eq!(found[0].weights[0].document_frequency, 1);
    assert_eq!(scores(&model, "andy"), vec![("B".to_string(), 0_f32)]);
}

#[test]
fn search_weighs_every_token_of_the_query() {
    let model = two_documents();
    let found = model.search(&chars("amy is unknown")).unwrap();
    assert_eq!(found[1].path, "B");
    let weights = &found[1].weights;
    assert_eq!(weights.len(), 3);
    assert_eq!((weights[0].occurrences, weights[0].document_frequency), (2, 1));
    assert_eq!((weights[1].occurrences, weights[1].document_frequency), (1, 2));
    // A token without an entry has the frequency one.
    assert_eq!((weights[2].occurrences, weights[2].document_frequency), (0, 1));
    // "IS" is in both documents: log10(2 / 2) is 0.
    assert_eq!(
        scores(&model, "is"),
        vec![("A".to_string(), 0_f32), ("B".to_string(), 0_f32)]
    );
}

#[test]
fn removing_an_unknown_path_changes_nothing() {
    let mut model = two_documents();
    model.remove_document("C");
    assert_eq!(model.paths(), vec!["A".to_string(), "B".to_string()]);
    assert_eq!(model.document_frequency("IS"), Some(2));
}

#[test]
fn adding_again_replaces_the_document() {
    let mut model = two_documents();
    model.add_document("A".to_string(), &chars("Amy"), at(3)).unwrap();
    // The replaced document comes last.
    assert_eq!(model.paths(), vec!["B".to_string(), "A".to_string()]);
    assert_eq!(model.document_frequency("ANDY"), Some(0));
    assert_eq!(model.document_frequency("AMY"), Some(2));
    assert_eq!(model.document_frequency("IS"), Some(1));
    assert_eq!(model.document("A").unwrap().total_tokens(), 1);
}

#[test]
fn remove_then_add_restores_the_document_frequencies() {
    let mut model = two_documents();
    let before = table(model.document_frequencies());
    model.remove_document("A");
    assert_ne!(table(model.document_frequencies()), before);
    model.add_document("A".to_string(), &chars("Andy is Andy."), at(5)).unwrap();
    assert_eq!(table(model.document_frequencies()), before);
}

#[test]
fn requires_reindexing_compares_modification_times() {
    let mut model = InMemoryIndexModel::new();
    let time = Timestamp { secs: 10, nanos: 500 };
    assert!(model.requires_reindexing("A", time));
    model.add_document("A".to_string(), &chars("Andy"), time).unwrap();
    assert!(!model.requires_reindexing("A", time));
    assert!(!model.requires_reindexing("A", Timestamp { secs: 10, nanos: 499 }));
    assert!(!model.requires_reindexing("A", Timestamp { secs: 9, nanos: 900 }));
    assert!(model.requires_reindexing("A", Timestamp { secs: 10, nanos: 501 }));
    assert!(model.requires_reindexing("A", Timestamp { secs: 11, nanos: 0 }));
    assert!(model.requires_reindexing("B", Timestamp { secs: 0, nanos: 0 }));
}

#[test]
fn timestamps_order_by_seconds_then_nanoseconds() {
    let early = Timestamp { secs: 1, nanos: 999_999_999 };
    let late = Timestamp { secs: 2, nanos: 0 };
    assert!(early.is_before(&late));
    assert!(!late.is_before(&early));
    assert!(!early.is_before(&early));
}

#[test]
fn adding_twice_is_adding_once() {
    let mut once = two_documents();
    once.add_document("A".to_string(), &chars("Andy is Andy."), at(7)).unwrap();
    let mut twice = two_documents();
    twice.add_document("A".to_string(), &chars("Andy is Andy."), at(7)).unwrap();
    twice.add_document("A".to_string(), &chars("Andy is Andy."), at(7)).unwrap();
    assert_eq!(once.paths(), twice.paths());
    assert_eq!(once.document_frequencies(), twice.document_frequencies());
    for path in once.paths() {
        let a = once.document(&path).unwrap();
        let b = twice.document(&path).unwrap();
        assert_eq!(a.term_frequencies(), b.term_frequencies());
        assert_eq!(a.total_tokens(), b.total_tokens());
        assert_eq!(a.last_modified(), b.last_modified());
    }
    assert_eq!(scores(&once, "andy amy"), scores(&twice, "andy amy"));
}

#[test]
fn path_at_and_document_at_follow_the_order_of_addition() {
    let model = two_documents();
    assert_eq!(model.path_at(0), "A");
    assert_eq!(model.path_at(1), "B");
    assert_eq!(model.document_at(1).term_frequency("AMY"), Some(2));
}
