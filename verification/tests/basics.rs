use recon::arena::Arena;
use recon::inverted_index::InvertedIndex;
use recon::postings::{same_list, PostingTable};
use recon::score::{Idf, Tf};
use recon::text::{byte_len, keeps};
use recon::utils::column_width;
use recon::vocabulary::Vocabulary;

fn ln_ratio(idf: Idf) -> f64 {
    match idf {
        Idf::Zero => 0.0,
        Idf::Ln { docs, containing } => (docs as f64 / containing as f64).ln(),
    }
}

#[test]
fn arena_keeps_what_was_allocated() {
    let mut arena = Arena::new();
    assert_eq!(arena.len(), 0);
    assert_eq!(arena.allocate("first".to_string()), "first");
    assert_eq!(arena.allocate(String::new()), "");
    assert_eq!(arena.allocate("third".to_string()), "third");
    assert_eq!(arena.len(), 3);
    assert_eq!(arena.get(0), "first");
    assert_eq!(arena.get(1), "");
    assert_eq!(arena.get(2), "third");
}

#[test]
fn arena_clear_releases_everything() {
    let mut arena = Arena::new();
    arena.allocate("a".to_string());
    arena.clear();
    assert_eq!(arena.len(), 0);
    assert_eq!(arena.allocate("b".to_string()), "b");
    assert_eq!(arena.get(0), "b");
}

#[test]
fn vocabulary_numbers_terms_in_their_order() {
    let mut vocabulary = Vocabulary::new();
    assert_eq!(vocabulary.len(), 0);
    assert_eq!(vocabulary.id_of("a"), None);
    assert_eq!(vocabulary.insert("a".to_string()), 0);
    assert_eq!(vocabulary.insert("".to_string()), 1);
    assert_eq!(vocabulary.insert("b".to_string()), 2);
    assert_eq!(vocabulary.len(), 3);
    assert_eq!(vocabulary.id_of("b"), Some(2));
    assert_eq!(vocabulary.id_of(""), Some(1));
    assert_eq!(vocabulary.id_of("c"), None);
    assert_eq!(vocabulary.term(0), "a");
    assert_eq!(vocabulary.term(2), "b");
}

#[test]
fn posting_table_appends_and_removes() {
    let mut table = PostingTable::new();
    table.append("x", 0, 2);
    table.append("y", 0, 1);
    table.append("x", 3, 1);
    table.insert("z".to_string(), vec![(1, 1), (2, 5), (3, 1)]);
    assert_eq!(table.len(), 3);
    assert_eq!(table.find("x"), Some(0));
    assert_eq!(table.find("w"), None);
    assert_eq!(table.term(1), "y");
    assert_eq!(table.list(0), &vec![(0, 2), (3, 1)]);
    table.retain_below(3);
    assert_eq!(table.len(), 2);
    assert_eq!(table.find("z"), None);
    assert_eq!(table.list(table.find("y").unwrap()), &vec![(0, 1)]);
    table.retain_below(1);
    assert_eq!(table.len(), 0);
}

#[test]
fn idf_does_not_grow_with_the_document_frequency() {
    let docs = 7;
    let mut last = f64::INFINITY;
    for containing in 1..=docs {
        let idf = ln_ratio(InvertedIndex::compute_idf(docs, containing));
        assert!(idf <= last);
        last = idf;
    }
    assert_eq!(last, 0.0);
    assert_eq!(ln_ratio(InvertedIndex::compute_idf(docs, 0)), 0.0);
}

#[test]
fn term_frequencies_compare_as_fractions() {
    let third = Tf { count: 1, total: 3 };
    let half = Tf { count: 2, total: 4 };
    assert!(half.exceeds(&third));
    assert!(!third.exceeds(&half));
    assert!(!half.exceeds(&Tf { count: 1, total: 2 }));
    let big = Tf { count: usize::MAX, total: usize::MAX };
    assert!(big.exceeds(&Tf { count: usize::MAX - 1, total: usize::MAX }));
    assert!(Idf::Ln { docs: 2, containing: 1 }.positive());
    assert!(!Idf::Ln { docs: 2, containing: 2 }.positive());
    assert!(!Idf::Ln { docs: 2, containing: 0 }.positive());
    assert!(!Idf::Zero.positive());
}

#[test]
fn characters_and_lengths() {
    assert_eq!(byte_len(""), 0);
    assert_eq!(byte_len("a\u{e9}\u{4e2d}\u{1f600}"), 10);
    assert!(keeps('a', false));
    assert!(keeps('\u{e9}', false));
    assert!(keeps('7', false));
    assert!(!keeps('\'', false));
    assert!(keeps('\'', true));
    assert!(!keeps('-', true));
    assert!(!keeps(' ', true));
}

#[test]
fn name_column_is_four_wider_than_the_longest_name() {
    assert_eq!(column_width(&vec!["a.txt", "longer.txt", "b"]), 14);
    assert_eq!(column_width(&vec!["\u{e9}"]), 6);
    assert_eq!(column_width(&Vec::new()), 4);
}

#[test]
fn posting_tables_are_compared_as_maps() {
    let mut a = PostingTable::new();
    a.append("x", 0, 2);
    a.append("y", 1, 1);
    let mut b = PostingTable::new();
    b.append("y", 1, 1);
    assert!(b.included_in(&a));
    assert!(!a.included_in(&b));
    b.append("x", 0, 2);
    assert!(a.included_in(&b) && b.included_in(&a));
    b.append("x", 1, 1);
    assert!(!a.included_in(&b));
    assert!(same_list(&vec![(0, 1), (2, 3)], &vec![(0, 1), (2, 3)]));
    assert!(!same_list(&vec![(0, 1), (2, 3)], &vec![(0, 1), (2, 4)]));
    assert!(!same_list(&vec![(0, 1)], &vec![(0, 1), (2, 3)]));
    assert!(!same_list(&vec![(1, 1)], &vec![(0, 1)]));
}
