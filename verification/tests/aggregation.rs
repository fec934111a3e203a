use bookfinder::aggregate::{aggregate, Book};
use bookfinder::dispatch::{aggregate_outcomes, estimate_tokens, ChunkOutcome};

fn book(author: &str, title: &str) -> Book {
    Book { author: author.to_string(), title: title.to_string() }
}

fn pairs(books: &[Book]) -> Vec<(String, String)> {
    books.iter().map(|b| (b.author.clone(), b.title.clone())).collect()
}

#[test]
fn authors_of_one_title_are_reconciled() {
    let out = aggregate(&vec![vec![book("A", "X")], vec![book("B", "X")]]);
    assert_eq!(pairs(&out), vec![("A, B".to_string(), "X".to_string())]);
}

#[test]
fn repeated_author_is_counted_once() {
    let out = aggregate(&vec![vec![book("A", "X")], vec![book("A", "X")]]);
    assert_eq!(pairs(&out), vec![("A".to_string(), "X".to_string())]);
}

#[test]
fn entries_are_sorted_by_title() {
    let out = aggregate(&vec![vec![book("C", "Gamma"), book("A", "Alpha")], vec![book(
        "B", "Beta",
    )]]);
    let titles: Vec<&str> = out.iter().map(|b| b.title.as_str()).collect();
    assert_eq!(titles, vec!["Alpha", "Beta", "Gamma"]);
}

#[test]
fn self_titled_entry_never_appears() {
    let out = aggregate(&vec![vec![book("X", "X"), book("A", "Y")]]);
    assert_eq!(pairs(&out), vec![("A".to_string(), "Y".to_string())]);
    for b in &out {
        assert_ne!(b.author, b.title);
    }
}

#[test]
fn aggregation_is_idempotent_on_its_output() {
    let out = aggregate(&vec![
        vec![book("A", "X"), book("B", "Y")],
        vec![book("B", "X"), book("B", "Y")],
        vec![book("C", "Z")],
    ]);
    let again = aggregate(&vec![out.clone()]);
    assert_eq!(pairs(&again), pairs(&out));
}

#[test]
fn empty_input_aggregates_to_empty() {
    let out = aggregate(&vec![]);
    assert!(out.is_empty());
    let out = aggregate(&vec![vec![], vec![]]);
    assert!(out.is_empty());
}

#[test]
fn failed_chunks_do_not_disturb_the_rest() {
    let outcomes = vec![
        ChunkOutcome::Records(vec![book("A", "X")]),
        ChunkOutcome::AdmissionDenied,
        ChunkOutcome::ServiceError,
        ChunkOutcome::DecodeError,
        ChunkOutcome::Records(vec![book("B", "Y")]),
    ];
    let out = aggregate_outcomes(&outcomes);
    assert_eq!(
        pairs(&out),
        vec![("A".to_string(), "X".to_string()), ("B".to_string(), "Y".to_string())]
    );

    let only_good = vec![
        ChunkOutcome::Records(vec![book("A", "X")]),
        ChunkOutcome::Records(vec![book("B", "Y")]),
    ];
    assert_eq!(pairs(&aggregate_outcomes(&only_good)), pairs(&out));
}

#[test]
fn all_chunks_failed_gives_empty_list() {
    let outcomes = vec![ChunkOutcome::AdmissionDenied, ChunkOutcome::DecodeError];
    assert!(aggregate_outcomes(&outcomes).is_empty());
}

#[test]
fn titles_sort_by_code_point_across_scripts() {
    let out = aggregate(&vec![vec![
        book("B", "книга"),
        book("A", "Book"),
        book("C", "book"),
    ]]);
    let titles: Vec<&str> = out.iter().map(|b| b.title.as_str()).collect();
    // ASCII upper case before lower case before Cyrillic
    assert_eq!(titles, vec!["Book", "book", "книга"]);
}

#[test]
fn same_title_keeps_first_seen_author_order() {
    let out = aggregate(&vec![vec![book("Z", "X")], vec![book("A", "X")], vec![book(
        "M", "X",
    )]]);
    assert_eq!(pairs(&out), vec![("Z, A, M".to_string(), "X".to_string())]);
}

#[test]
fn token_estimate_formula() {
    assert_eq!(estimate_tokens(16000, 342), (2 * 16000 + 2 * 342) / 4);
    assert_eq!(estimate_tokens(0, 0), 0);
    assert_eq!(estimate_tokens(2, 0), 1);
    assert_eq!(estimate_tokens(100, 50), 75);
}
