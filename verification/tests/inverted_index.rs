use recon::arena::Arena;
use recon::codec::{IndexError, IndexRecord};
use recon::inverted_index::InvertedIndex;
use recon::score::{Idf, Scored, Tf, TfIdf};

fn corpus(docs: &[(&str, &str)]) -> Vec<(String, String)> {
    docs.iter().map(|d| (d.0.to_string(), d.1.to_string())).collect()
}

fn cat_and_dog() -> InvertedIndex {
    let mut arena = Arena::new();
    let mut index = InvertedIndex::new();
    index.build(&corpus(&[("A", "the cat sat"), ("B", "the dog sat")]), &mut arena);
    index
}

fn queries(terms: &[&str]) -> Vec<String> {
    terms.iter().map(|t| t.to_string()).collect()
}

fn value(score: &[TfIdf]) -> f64 {
    score
        .iter()
        .map(|w| {
            let tf = w.tf.count as f64 / w.tf.total as f64;
            let idf = match w.idf {
                Idf::Zero => 0.0,
                Idf::Ln { docs, containing } => (docs as f64 / containing as f64).ln(),
            };
            tf * idf
        })
        .sum()
}

#[test]
fn new_index_is_empty() {
    let index = InvertedIndex::new();
    assert_eq!(index.doc_count(), 0);
    assert_eq!(index.indexed_terms(), 0);
    assert!(index.scores(queries(&["cat"])).is_empty());
}

#[test]
fn build_records_names_lengths_and_counts() {
    let index = cat_and_dog();
    assert_eq!(index.doc_count(), 2);
    assert_eq!(index.doc_name(0), "A");
    assert_eq!(index.doc_name(1), "B");
    assert_eq!(index.doc_length(0), 3);
    assert_eq!(index.doc_length(1), 3);
    assert_eq!(index.indexed_terms(), 4);
    assert_eq!(index.occurrences_in("cat", 0), 1);
    assert_eq!(index.occurrences_in("cat", 1), 0);
    assert_eq!(index.occurrences_in("sat", 1), 1);
    assert_eq!(index.occurrences_in("bird", 0), 0);
    assert_eq!(index.occurrences_in("cat", 7), 0);
}

#[test]
fn build_lowercases_and_stores_the_text_in_the_arena() {
    let mut arena = Arena::new();
    let mut index = InvertedIndex::new();
    index.build(&corpus(&[("a.txt", "The CAT, the cat!")]), &mut arena);
    assert_eq!(arena.len(), 1);
    assert_eq!(arena.get(0), "the cat, the cat!");
    assert_eq!(index.occurrences_in("the", 0), 2);
    assert_eq!(index.occurrences_in("cat", 0), 2);
    assert_eq!(index.occurrences_in("The", 0), 0);
    assert_eq!(index.doc_length(0), 4);
}

#[test]
fn build_replaces_what_the_index_held() {
    let mut arena = Arena::new();
    let mut index = cat_and_dog();
    index.build(&corpus(&[("C", "one two")]), &mut arena);
    assert_eq!(index.doc_count(), 1);
    assert_eq!(index.doc_name(0), "C");
    assert_eq!(index.indexed_terms(), 2);
    assert_eq!(index.occurrences_in("cat", 0), 0);
}

#[test]
fn building_twice_from_a_cleared_arena_gives_the_same_index() {
    let docs = corpus(&[("A", "the cat sat"), ("B", "the dog sat")]);
    let mut arena = Arena::new();
    let mut first = InvertedIndex::new();
    first.build(&docs, &mut arena);
    arena.clear();
    assert_eq!(arena.len(), 0);
    let mut second = InvertedIndex::new();
    second.build(&docs, &mut arena);
    assert_eq!(arena.len(), 2);
    let (a, b) = (first.to_record(), second.to_record());
    assert_eq!(a.postings, b.postings);
    assert_eq!(a.doc_names, b.doc_names);
    assert_eq!(a.doc_lengths, b.doc_lengths);
}

#[test]
fn query_for_a_term_of_one_document() {
    let index = cat_and_dog();
    let ranking = index.scores(queries(&["cat"]));
    assert_eq!(ranking.len(), 1);
    assert_eq!(ranking[0].0, "A");
    let weight = TfIdf { tf: Tf { count: 1, total: 3 }, idf: Idf::Ln { docs: 2, containing: 1 } };
    assert_eq!(ranking[0].1, vec![weight]);
    let score = value(&ranking[0].1);
    assert!((score - 2.0_f64.ln() / 3.0).abs() < 1e-12);
    assert!((score - 0.2310).abs() < 1e-4);
}

#[test]
fn query_for_a_term_of_every_document_finds_nothing() {
    let index = cat_and_dog();
    assert!(index.scores(queries(&["sat"])).is_empty());
    assert!(index.scores(queries(&["the", "sat"])).is_empty());
}

#[test]
fn query_for_unknown_terms_or_no_terms_finds_nothing() {
    let index = cat_and_dog();
    assert!(index.scores(queries(&["bird"])).is_empty());
    assert!(index.scores(queries(&[])).is_empty());
    assert!(index.scores(queries(&["Cat"])).is_empty());
}

#[test]
fn query_scores_add_up_over_terms() {
    let index = cat_and_dog();
    let both = index.scores(queries(&["cat", "sat", "dog", "bird"]));
    assert_eq!(both.len(), 2);
    assert_eq!(both[0].0, "A");
    assert_eq!(both[1].0, "B");
    let cat = TfIdf { tf: Tf { count: 1, total: 3 }, idf: Idf::Ln { docs: 2, containing: 1 } };
    let sat = TfIdf { tf: Tf { count: 1, total: 3 }, idf: Idf::Ln { docs: 2, containing: 2 } };
    assert_eq!(both[0].1, vec![cat, sat]);
    assert_eq!(both[1].1, vec![sat, cat]);
    let single: f64 = ["cat", "sat", "dog", "bird"]
        .iter()
        .map(|t| {
            index.scores(queries(&[t])).iter().filter(|hit| hit.0 == "A").map(|hit| value(&hit.1)).sum::<f64>()
        })
        .sum();
    assert!((value(&both[0].1) - single).abs() < 1e-12);
}

#[test]
fn a_repeated_query_term_counts_twice() {
    let index = cat_and_dog();
    let ranking = index.scores(queries(&["cat", "cat"]));
    assert_eq!(ranking.len(), 1);
    assert_eq!(ranking[0].1.len(), 2);
}

#[test]
fn prune_keeps_the_terms_below_the_cutoff() {
    let mut index = cat_and_dog();
    index.prune(2);
    assert_eq!(index.indexed_terms(), 2);
    assert_eq!(index.occurrences_in("cat", 0), 1);
    assert_eq!(index.occurrences_in("dog", 1), 1);
    assert_eq!(index.occurrences_in("the", 0), 0);
    assert_eq!(index.occurrences_in("sat", 1), 0);
    assert_eq!(index.doc_count(), 2);
    assert_eq!(index.doc_length(0), 3);
}

#[test]
fn prune_with_a_cutoff_above_the_document_count_keeps_everything() {
    let mut index = cat_and_dog();
    index.prune(3);
    assert_eq!(index.indexed_terms(), 4);
}

#[test]
fn prune_with_cutoff_zero_removes_every_term() {
    let mut index = cat_and_dog();
    index.prune(0);
    assert_eq!(index.indexed_terms(), 0);
    assert_eq!(index.doc_count(), 2);
    assert!(index.scores(queries(&["cat"])).is_empty());
}

#[test]
fn save_writes_the_triple_as_json() {
    let mut arena = Arena::new();
    let mut index = InvertedIndex::new();
    index.build(&corpus(&[("a.txt", "b a b")]), &mut arena);
    assert_eq!(index.save().unwrap(), r#"[{"a":{"0":1},"b":{"0":2}},["a.txt"],[3]]"#);
}

#[test]
fn load_restores_what_save_wrote() {
    let index = cat_and_dog();
    let text = index.save().unwrap();
    let mut loaded = InvertedIndex::new();
    loaded.load(&text).unwrap();
    assert_eq!(loaded.doc_count(), 2);
    assert_eq!(loaded.doc_name(1), "B");
    assert_eq!(loaded.doc_length(1), 3);
    assert_eq!(loaded.indexed_terms(), 4);
    for term in ["the", "cat", "sat", "dog", "bird"] {
        for doc in 0..2 {
            assert_eq!(loaded.occurrences_in(term, doc), index.occurrences_in(term, doc));
        }
    }
    assert_eq!(loaded.save().unwrap(), text);
    assert_eq!(loaded.scores(queries(&["cat"])), index.scores(queries(&["cat"])));
}

#[test]
fn load_accepts_documents_in_any_order_of_keys() {
    let mut index = InvertedIndex::new();
    index.load(r#"[{"x":{"1":2,"0":1}},["a","b"],[1,2]]"#).unwrap();
    assert_eq!(index.occurrences_in("x", 0), 1);
    assert_eq!(index.occurrences_in("x", 1), 2);
}

#[test]
fn load_refuses_text_that_is_not_the_persisted_form() {
    let mut index = cat_and_dog();
    for text in ["", "not json", "{}", "[1,2,3]", r#"[{"a":{"x":1}},["d"],[1]]"#, r#"[{},[],[]"#] {
        assert!(matches!(index.load(text), Err(IndexError::Malformed(_))));
    }
    assert_eq!(index.doc_count(), 2);
    assert_eq!(index.indexed_terms(), 4);
}

#[test]
fn load_refuses_a_record_that_is_no_index() {
    let mut index = cat_and_dog();
    let broken = [
        r#"[{},["a"],[]]"#,
        r#"[{"a":{"1":1}},["d"],[1]]"#,
        r#"[{"a":{"0":0}},["d"],[1]]"#,
        r#"[{"a":{"0":2}},["d"],[1]]"#,
    ];
    for text in broken {
        assert!(matches!(index.load(text), Err(IndexError::Inconsistent)));
    }
    assert_eq!(index.doc_count(), 2);
    assert_eq!(index.occurrences_in("cat", 0), 1);
}

#[test]
fn load_replaces_the_index() {
    let mut index = cat_and_dog();
    index.load(r#"[{},[],[]]"#).unwrap();
    assert_eq!(index.doc_count(), 0);
    assert_eq!(index.indexed_terms(), 0);
}

#[test]
fn from_record_refuses_what_is_not_well_formed() {
    let record = |postings: Vec<(&str, Vec<(usize, usize)>)>| IndexRecord {
        postings: postings.into_iter().map(|p| (p.0.to_string(), p.1)).collect(),
        doc_names: vec!["a".to_string(), "b".to_string()],
        doc_lengths: vec![2, 2],
    };
    assert!(InvertedIndex::from_record(record(vec![("x", vec![(0, 1), (1, 2)])])).is_ok());
    assert!(InvertedIndex::from_record(record(vec![("x", vec![])])).is_ok());
    let bad = [
        record(vec![("x", vec![(0, 1)]), ("x", vec![(1, 1)])]),
        record(vec![("x", vec![(1, 1), (0, 1)])]),
        record(vec![("x", vec![(0, 1), (0, 1)])]),
        record(vec![("x", vec![(2, 1)])]),
        record(vec![("x", vec![(0, 3)])]),
    ];
    for r in bad {
        assert!(matches!(InvertedIndex::from_record(r), Err(IndexError::Inconsistent)));
    }
}

#[test]
fn reloaded_index_is_the_same() {
    let index = cat_and_dog();
    let copy = index.reloaded().unwrap();
    assert!(copy.same_as(&index));
    assert!(index.same_as(&copy));
    assert_eq!(copy.to_record().doc_names, index.to_record().doc_names);
    assert_eq!(copy.to_record().doc_lengths, index.to_record().doc_lengths);
    assert!(InvertedIndex::new().reloaded().unwrap().same_as(&InvertedIndex::new()));
}

#[test]
fn reloading_keeps_terms_that_json_must_escape() {
    let mut arena = Arena::new();
    let mut index = InvertedIndex::new();
    index.build(&corpus(&[("a \"b\"\n.txt", "caf\u{e9} ... \u{4e2d}\u{6587} x")]), &mut arena);
    let mut loaded = InvertedIndex::new();
    loaded.load(&index.save().unwrap()).unwrap();
    assert!(loaded.same_as(&index));
    assert_eq!(loaded.doc_name(0), "a \"b\"\n.txt");
    assert_eq!(loaded.occurrences_in("", 0), 1);
    assert_eq!(loaded.occurrences_in("caf\u{e9}", 0), 1);
}

#[test]
fn same_as_tells_indexes_apart() {
    let index = cat_and_dog();
    let mut arena = Arena::new();
    let mut reordered = InvertedIndex::new();
    reordered.build(&corpus(&[("A", "sat the cat"), ("B", "sat dog the")]), &mut arena);
    assert!(index.same_as(&reordered));
    let mut other = InvertedIndex::new();
    other.build(&corpus(&[("A", "the cat sat"), ("C", "the dog sat")]), &mut arena);
    assert!(!index.same_as(&other));
    other.build(&corpus(&[("A", "the cat sat"), ("B", "the dog sat sat")]), &mut arena);
    assert!(!index.same_as(&other));
    other.build(&corpus(&[("A", "the cat sat"), ("B", "the dog sit")]), &mut arena);
    assert!(!index.same_as(&other));
    other.build(&corpus(&[("A", "the cat sat")]), &mut arena);
    assert!(!index.same_as(&other));
    let mut pruned = cat_and_dog();
    pruned.prune(2);
    assert!(!index.same_as(&pruned));
    assert!(!pruned.same_as(&index));
}

#[test]
fn score_parts_are_computed_from_the_counts() {
    assert_eq!(InvertedIndex::compute_tf(1, 3), Tf { count: 1, total: 3 });
    assert_eq!(InvertedIndex::compute_idf(2, 1), Idf::Ln { docs: 2, containing: 1 });
    assert_eq!(InvertedIndex::compute_idf(2, 0), Idf::Zero);
    let tf = Tf { count: 1, total: 3 };
    assert_eq!(InvertedIndex::compute_tf_idf(tf, Idf::Zero), TfIdf { tf, idf: Idf::Zero });
    assert!(TfIdf { tf, idf: Idf::Ln { docs: 2, containing: 1 } }.positive());
    assert!(!TfIdf { tf, idf: Idf::Ln { docs: 2, containing: 2 } }.positive());
    assert!(!TfIdf { tf, idf: Idf::Zero }.positive());
    assert!(!TfIdf { tf: Tf { count: 0, total: 3 }, idf: Idf::Ln { docs: 2, containing: 1 } }.positive());
}

fn bits(weights: &Vec<TfIdf>) -> u64 {
    value(weights).to_bits()
}

fn ranked_names(ranking: &[(String, Scored)]) -> Vec<&str> {
    ranking.iter().map(|hit| hit.0.as_str()).collect()
}

fn two_short_documents() -> InvertedIndex {
    let list = |term: &str, entries: &[(usize, usize)]| (term.to_string(), entries.to_vec());
    InvertedIndex::from_record(IndexRecord {
        postings: vec![
            list("the", &[(0, 1), (1, 1)]),
            list("cat", &[(0, 1)]),
            list("sat", &[(0, 1)]),
            list("dog", &[(1, 1)]),
        ],
        doc_names: vec!["A".to_string(), "B".to_string()],
        doc_lengths: vec![3, 2],
    })
    .unwrap()
}

#[test]
fn recon_puts_the_higher_score_first() {
    let index = two_short_documents();
    for query in [&["cat", "dog"], &["dog", "cat"]] {
        let ranking = index.recon(queries(query), bits);
        assert_eq!(ranked_names(&ranking), vec!["B", "A"]);
        let first = f64::from_bits(ranking[0].1.key);
        let second = f64::from_bits(ranking[1].1.key);
        assert!((first - 0.5 * 2.0_f64.ln()).abs() < 1e-12);
        assert!((second - 2.0_f64.ln() / 3.0).abs() < 1e-12);
        assert!((first - 0.3466).abs() < 1e-4);
        assert!((second - 0.2310).abs() < 1e-4);
        let dog = TfIdf { tf: Tf { count: 1, total: 2 }, idf: Idf::Ln { docs: 2, containing: 1 } };
        assert_eq!(ranking[0].1.weights, vec![dog]);
    }
}

#[test]
fn recon_lists_what_scores_lists_in_the_order_of_the_keys() {
    let mut arena = Arena::new();
    let mut index = InvertedIndex::new();
    index.build(
        &corpus(&[
            ("one", "x a a a"),
            ("none", "a a"),
            ("two", "x x a"),
            ("also one", "a x a a"),
            ("three", "x x x"),
        ]),
        &mut arena,
    );
    let ranking = index.recon(queries(&["x", "y"]), bits);
    assert_eq!(ranked_names(&ranking), vec!["three", "two", "one", "also one"]);
    for pair in ranking.windows(2) {
        assert!(pair[0].1.key >= pair[1].1.key);
    }
    let listed = index.scores(queries(&["x", "y"]));
    assert_eq!(listed.len(), ranking.len());
    for hit in &ranking {
        assert_eq!(hit.1.key, bits(&hit.1.weights));
        assert!(listed.iter().any(|l| l.0 == hit.0 && l.1 == hit.1.weights));
    }
    assert!(ranking.len() <= index.doc_count());
}

#[test]
fn recon_orders_by_the_keys_whatever_they_are() {
    let index = two_short_documents();
    let by_length = index.recon(queries(&["cat", "dog"]), |weights: &Vec<TfIdf>| {
        weights[0].tf.total as u64
    });
    assert_eq!(ranked_names(&by_length), vec!["A", "B"]);
    assert_eq!(by_length[0].1.key, 3);
    let level = index.recon(queries(&["cat", "dog"]), |_: &Vec<TfIdf>| 7);
    assert_eq!(ranked_names(&level), vec!["A", "B"]);
}

#[test]
fn recon_finds_nothing_where_scores_finds_nothing() {
    let index = cat_and_dog();
    assert!(index.recon(queries(&["sat"]), bits).is_empty());
    assert!(index.recon(queries(&["bird"]), bits).is_empty());
    assert!(index.recon(queries(&[]), bits).is_empty());
    assert!(InvertedIndex::new().recon(queries(&["cat"]), bits).is_empty());
    let ranking = index.recon(queries(&["cat"]), bits);
    assert_eq!(ranked_names(&ranking), vec!["A"]);
    assert!((f64::from_bits(ranking[0].1.key) - 2.0_f64.ln() / 3.0).abs() < 1e-12);
}

#[test]
fn building_in_another_order_changes_the_numbers_only() {
    let mut arena = Arena::new();
    let mut first = InvertedIndex::new();
    first.build(&corpus(&[("A", "the cat sat"), ("B", "the dog"), ("C", "cat cat")]), &mut arena);
    let mut second = InvertedIndex::new();
    second.build(&corpus(&[("C", "cat cat"), ("A", "the cat sat"), ("B", "the dog")]), &mut arena);
    let to = [1, 2, 0];
    assert_eq!(first.indexed_terms(), second.indexed_terms());
    for doc in 0..3 {
        assert_eq!(second.doc_name(to[doc]), first.doc_name(doc));
        assert_eq!(second.doc_length(to[doc]), first.doc_length(doc));
        for term in ["the", "cat", "sat", "dog", "bird"] {
            assert_eq!(second.occurrences_in(term, to[doc]), first.occurrences_in(term, doc));
        }
    }
    assert!(!first.same_as(&second));
}
