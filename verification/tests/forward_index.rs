use recon::arena::Arena;
use recon::codec::{ForwardRecord, IndexError};
use recon::computations::{compute_idf, compute_tf, compute_tf_idf};
use recon::forward_index::ForwardIndex;
use recon::score::{rank, Idf, Rank, Tf, TfIdf};
use recon::term_counts::TermCounts;

fn corpus(docs: &[(&str, &str)]) -> Vec<(String, String)> {
    docs.iter().map(|d| (d.0.to_string(), d.1.to_string())).collect()
}

fn index_of(docs: &[(&str, &str)]) -> ForwardIndex {
    let mut arena = Arena::new();
    let mut index = ForwardIndex::new();
    index.build(&corpus(docs), &mut arena);
    index
}

#[test]
fn term_counts_of_a_text() {
    let counts = TermCounts::of_text("b a b, B! a b");
    assert_eq!(counts.len(), 3);
    assert_eq!(counts.term(0), "b");
    assert_eq!(counts.count_at(0), 3);
    assert_eq!(counts.count("a"), 2);
    assert_eq!(counts.count("B"), 1);
    assert_eq!(counts.count("c"), 0);
    assert_eq!(counts.total_words(), 6);
    let empty = TermCounts::of_text("  ");
    assert_eq!(empty.len(), 0);
    assert_eq!(empty.total_words(), 0);
}

#[test]
fn term_counts_refuse_bad_entries() {
    let mut counts = TermCounts::new();
    assert!(counts.insert_count("a".to_string(), 2));
    assert!(!counts.insert_count("a".to_string(), 1));
    assert!(!counts.insert_count("b".to_string(), 0));
    assert!(!counts.insert_count("b".to_string(), usize::MAX - 1));
    assert!(counts.insert_count("b".to_string(), usize::MAX - 2));
    assert_eq!(counts.total_words(), usize::MAX);
    assert_eq!(counts.len(), 2);
}

#[test]
fn tf_of_an_absent_term_is_zero() {
    let counts = TermCounts::of_text("the cat sat");
    assert_eq!(compute_tf(&counts, "dog"), Tf { count: 0, total: 3 });
    assert_eq!(compute_tf(&counts, "cat"), Tf { count: 1, total: 3 });
}

#[test]
fn idf_counts_the_documents_that_contain_the_term() {
    let docs = vec![TermCounts::of_text("the cat sat"), TermCounts::of_text("the dog sat")];
    assert_eq!(compute_idf(&docs, "cat"), Idf::Ln { docs: 2, containing: 1 });
    assert_eq!(compute_idf(&docs, "the"), Idf::Ln { docs: 2, containing: 2 });
    assert_eq!(compute_idf(&docs, "bird"), Idf::Zero);
    assert_eq!(compute_idf(&Vec::new(), "cat"), Idf::Zero);
    let tf = Tf { count: 1, total: 3 };
    assert_eq!(compute_tf_idf(tf, Idf::Zero), TfIdf { tf, idf: Idf::Zero });
}

#[test]
fn forward_query_ranks_by_term_frequency() {
    let index = index_of(&[
        ("low", "cat dog dog dog"),
        ("none", "dog dog"),
        ("high", "cat cat dog"),
        ("mid", "cat dog"),
    ]);
    let ranking = index.recon("cat".to_string());
    let names: Vec<&str> = ranking.iter().map(|hit| hit.0.as_str()).collect();
    assert_eq!(names, vec!["high", "mid", "low"]);
    let idf = Idf::Ln { docs: 4, containing: 3 };
    assert_eq!(ranking[0].1, TfIdf { tf: Tf { count: 2, total: 3 }, idf });
    assert_eq!(ranking[2].1, TfIdf { tf: Tf { count: 1, total: 4 }, idf });
}

#[test]
fn forward_query_without_positive_weight_finds_nothing() {
    let index = index_of(&[("A", "the cat sat"), ("B", "the dog sat")]);
    assert!(index.recon("sat".to_string()).is_empty());
    assert!(index.recon("bird".to_string()).is_empty());
    assert_eq!(index.recon("cat".to_string()).len(), 1);
    assert!(ForwardIndex::new().recon("cat".to_string()).is_empty());
}

#[test]
fn forward_build_adds_to_what_the_index_holds() {
    let mut arena = Arena::new();
    let mut index = index_of(&[("A", "x")]);
    index.build(&corpus(&[("B", "Y y"), ("A", "z")]), &mut arena);
    assert_eq!(index.len(), 2);
    assert_eq!(index.name(0), "A");
    assert_eq!(index.name(1), "B");
    assert_eq!(index.get("A").unwrap().count("z"), 1);
    assert_eq!(index.get("A").unwrap().count("x"), 0);
    assert_eq!(index.get("B").unwrap().count("y"), 2);
    assert!(index.get("C").is_none());
    assert_eq!(arena.len(), 2);
    assert_eq!(arena.get(0), "y y");
}

#[test]
fn forward_save_writes_documents_by_name() {
    let index = index_of(&[("b.txt", "y x y"), ("a.txt", "z")]);
    assert_eq!(index.save().unwrap(), r#"{"a.txt":{"z":1},"b.txt":{"x":1,"y":2}}"#);
}

#[test]
fn forward_load_restores_what_save_wrote() {
    let index = index_of(&[("A", "the cat sat"), ("B", "the dog sat down")]);
    let text = index.save().unwrap();
    let mut loaded = ForwardIndex::new();
    loaded.load(&text).unwrap();
    assert_eq!(loaded.len(), 2);
    assert_eq!(loaded.get("B").unwrap().total_words(), 4);
    assert_eq!(loaded.get("A").unwrap().count("cat"), 1);
    assert_eq!(loaded.save().unwrap(), text);
    assert_eq!(loaded.recon("cat".to_string()), index.recon("cat".to_string()));
}

#[test]
fn forward_load_refuses_bad_text_and_keeps_the_index() {
    let mut index = index_of(&[("A", "x")]);
    assert!(matches!(index.load("[]"), Err(IndexError::Malformed(_))));
    assert!(matches!(index.load(r#"{"A":{"x":-1}}"#), Err(IndexError::Malformed(_))));
    assert!(matches!(index.load(r#"{"A":{"x":0}}"#), Err(IndexError::Inconsistent)));
    let huge = format!(r#"{{"A":{{"x":{},"y":1}}}}"#, usize::MAX);
    assert!(matches!(index.load(&huge), Err(IndexError::Inconsistent)));
    assert_eq!(index.len(), 1);
    assert_eq!(index.get("A").unwrap().count("x"), 1);
    index.load("{}").unwrap();
    assert_eq!(index.len(), 0);
}

#[test]
fn forward_from_record_refuses_repeated_names_and_terms() {
    let record = |docs: Vec<(&str, Vec<(&str, usize)>)>| ForwardRecord {
        documents: docs
            .into_iter()
            .map(|d| (d.0.to_string(), d.1.into_iter().map(|p| (p.0.to_string(), p.1)).collect()))
            .collect(),
    };
    assert!(ForwardIndex::from_record(record(vec![("A", vec![("x", 1)]), ("B", vec![])])).is_ok());
    let twice = record(vec![("A", vec![("x", 1)]), ("A", vec![("y", 1)])]);
    assert!(matches!(ForwardIndex::from_record(twice), Err(IndexError::Inconsistent)));
    let term_twice = record(vec![("A", vec![("x", 1), ("x", 2)])]);
    assert!(matches!(ForwardIndex::from_record(term_twice), Err(IndexError::Inconsistent)));
}

#[test]
fn rank_orders_fractions_exactly() {
    let hit = |name: &str, count: usize, total: usize| {
        (name.to_string(), TfIdf { tf: Tf { count, total }, idf: Idf::Ln { docs: 9, containing: 2 } })
    };
    let big = usize::MAX;
    let ranked = rank(vec![
        hit("third", 1, 3),
        hit("half", big / 2, big),
        hit("first", 2, 3),
        hit("also third", 2, 6),
        hit("tiny", 1, big),
    ]);
    let names: Vec<&str> = ranked.iter().map(|h| h.0.as_str()).collect();
    assert_eq!(names, vec!["first", "half", "third", "also third", "tiny"]);
    assert!(ranked[0].1.above(&ranked[1].1));
    assert!(!ranked[2].1.above(&ranked[3].1));
    assert!(!ranked[3].1.above(&ranked[2].1));
}

#[test]
fn rank_orders_numbers_and_keeps_equal_ones_in_place() {
    let keyed = |name: &str, score: f64| (name.to_string(), score.to_bits());
    let ranked = rank(vec![
        keyed("b", 0.25),
        keyed("a", 0.5),
        keyed("d", 0.25),
        keyed("c", 1.5e-300),
        keyed("e", 3.0),
    ]);
    let names: Vec<&str> = ranked.iter().map(|h| h.0.as_str()).collect();
    assert_eq!(names, vec!["e", "a", "b", "d", "c"]);
    assert_eq!(f64::from_bits(ranked[0].1), 3.0);
    assert!(rank(Vec::<(String, u64)>::new()).is_empty());
    assert!(7u64.above(&3));
    assert!(!3u64.above(&3));
}

#[test]
fn forward_reloaded_index_is_the_same() {
    let index = index_of(&[("A", "the cat sat"), ("B", "the dog sat down")]);
    let copy = index.reloaded().unwrap();
    assert!(copy.same_as(&index));
    assert!(!copy.same_as(&index_of(&[("A", "the cat sat")])));
    assert!(!copy.same_as(&index_of(&[("A", "the cat sat"), ("B", "the dog sat up")])));
    assert!(!copy.same_as(&index_of(&[("A", "the cat sat"), ("B", "the dog dog sat down")])));
    assert!(copy.same_as(&index_of(&[("B", "down sat dog the"), ("A", "sat cat the")])));
}

#[test]
fn term_counts_are_compared_as_maps() {
    let a = TermCounts::of_text("x y x");
    let b = TermCounts::of_text("y x x");
    let c = TermCounts::of_text("x y x z");
    assert!(a.included_in(&b) && b.included_in(&a));
    assert!(a.included_in(&c));
    assert!(!c.included_in(&a));
    assert!(!a.included_in(&TermCounts::of_text("x y")));
    assert!(TermCounts::new().included_in(&a));
}
