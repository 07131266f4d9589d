use mini_hybrid_retrieval::text_index::TextIndex;

fn sample_docs() -> Vec<(String, String)> {
    vec![
        ("d1".to_string(), "Rust is a systems programming language.".to_string()),
        ("d2".to_string(), "Python is a popular scripting language.".to_string()),
        ("d3".to_string(), "Rust programming is fun and productive.".to_string()),
    ]
}

#[test]
fn text_index_counts_documents_and_terms() {
    let index = TextIndex::new(sample_docs());
    assert_eq!(index.doc_count(), 3);
    assert_eq!(index.id_count(), 3);
    // a, and, fun, is, language, popular, productive, programming, python,
    // rust, scripting, systems
    assert_eq!(index.term_count(), 12);
    assert_eq!(index.external_id(0), "d1");
    assert_eq!(index.external_id(2), "d3");
    assert_eq!(index.doc_text(1), "Python is a popular scripting language.");
    assert_eq!(index.doc_lengths().clone(), vec![6, 6, 6]);
    assert_eq!(index.total_length(), 18);
}

#[test]
fn text_index_query_terms_exact_and_prefix() {
    let index = TextIndex::new(sample_docs());
    assert_eq!(index.query_terms("rust programming"), vec![7, 9]);
    assert_eq!(index.query_terms("Programming RUST rust"), vec![7, 9]);
    assert_eq!(index.query_terms("prog"), vec![7]);
    assert_eq!(index.query_terms("pro"), vec![6, 7]);
    assert_eq!(index.query_terms("python"), vec![8]);
    assert!(index.query_terms("java").is_empty());
    assert!(index.query_terms("").is_empty());
}

#[test]
fn text_index_resolve_terms_sorted_unique() {
    let index = TextIndex::new(sample_docs());
    let tokens = vec!["systems".to_string(), "a".to_string(), "systems".to_string()];
    // "a" is itself a term, so it does not expand to "and".
    assert_eq!(index.resolve_terms(&tokens), vec![0, 11]);
}

#[test]
fn text_index_postings_sorted_by_doc() {
    let index = TextIndex::new(sample_docs());
    let rust: Vec<(u32, u32)> = index.term_postings(9).iter().map(|p| (p.doc_id, p.tf)).collect();
    assert_eq!(rust, vec![(0, 1), (2, 1)]);
    let is: Vec<(u32, u32)> = index.term_postings(3).iter().map(|p| (p.doc_id, p.tf)).collect();
    assert_eq!(is, vec![(0, 1), (1, 1), (2, 1)]);
}

#[test]
fn text_index_term_frequency_and_lengths() {
    let docs = vec![
        ("d1".to_string(), "rust rust rust".to_string()),
        ("d2".to_string(), "rust".to_string()),
        ("d3".to_string(), "".to_string()),
    ];
    let index = TextIndex::new(docs);
    assert_eq!(index.term_count(), 1);
    let ps: Vec<(u32, u32)> = index.term_postings(0).iter().map(|p| (p.doc_id, p.tf)).collect();
    assert_eq!(ps, vec![(0, 3), (1, 1)]);
    assert_eq!(index.max_tf(0), 3);
    assert_eq!(index.doc_length(0), 3);
    assert_eq!(index.doc_length(2), 0);
    assert_eq!(index.min_positive_length(), Some(1));
}

#[test]
fn text_index_repeated_external_id_shares_internal_id() {
    let docs = vec![
        ("a".to_string(), "x y".to_string()),
        ("a".to_string(), "z".to_string()),
    ];
    let index = TextIndex::new(docs);
    assert_eq!(index.doc_count(), 2);
    assert_eq!(index.id_count(), 1);
    assert_eq!(index.external_id(0), "a");
    assert_eq!(index.doc_lengths().clone(), vec![1, 0]);
    assert_eq!(index.total_length(), 3);
    let z: Vec<(u32, u32)> = index.term_postings(2).iter().map(|p| (p.doc_id, p.tf)).collect();
    assert_eq!(z, vec![(0, 1)]);
}

#[test]
fn text_index_empty() {
    let index = TextIndex::new(Vec::new());
    assert_eq!(index.doc_count(), 0);
    assert_eq!(index.term_count(), 0);
    assert_eq!(index.total_length(), 0);
    assert_eq!(index.min_positive_length(), None);
    assert!(index.query_terms("anything").is_empty());
}

#[test]
fn test_text_index_no_match() {
    let docs = vec![("d1".to_string(), "Rust is a systems language.".to_string())];
    let index = TextIndex::new(docs);
    assert!(index.query_terms("python").is_empty());
}

#[test]
fn test_prefix_search() {
    let docs = vec![
        ("d1".to_string(), "Rust programming language".to_string()),
        ("d2".to_string(), "Ruby programming language".to_string()),
    ];
    let index = TextIndex::new(docs);
    // "ru" expands to "ruby" and "rust", whose postings cover both documents.
    let terms = index.query_terms("ru");
    assert_eq!(terms.len(), 2);
    let mut docs_hit: Vec<u32> = Vec::new();
    for t in terms {
        for p in index.term_postings(t).iter() {
            docs_hit.push(p.doc_id);
        }
    }
    docs_hit.sort();
    assert_eq!(docs_hit, vec![0, 1]);
}

#[test]
fn test_empty_query_returns_no_results() {
    let docs = vec![
        ("doc_001", "Rust is a systems programming language focused on safety and performance"),
        ("doc_002", "Python is a high-level scripting language popular for data science"),
        ("doc_003", "C++ is a systems language with manual memory management and high performance"),
        ("doc_004", "JavaScript is the language of the web used for frontend and backend development"),
        ("doc_007", "Rust ownership model prevents memory bugs without garbage collection"),
    ];
    let index = TextIndex::new(docs.into_iter().map(|(i, t)| (i.to_string(), t.to_string())).collect());
    assert!(index.query_terms("").is_empty());
    assert!(!index.query_terms("rust memory").is_empty());
}

#[test]
fn text_index_internal_ids_in_first_appearance_order() {
    let docs = vec![
        ("a".to_string(), "one".to_string()),
        ("b".to_string(), "two".to_string()),
        ("a".to_string(), "three".to_string()),
        ("c".to_string(), "four".to_string()),
    ];
    let index = TextIndex::new(docs);
    assert_eq!(index.id_count(), 3);
    assert_eq!(index.external_id(0), "a");
    assert_eq!(index.external_id(1), "b");
    assert_eq!(index.external_id(2), "c");
    // terms: four, one, three, two
    let three: Vec<u32> = index.term_postings(2).iter().map(|p| p.doc_id).collect();
    assert_eq!(three, vec![0]);
    let four: Vec<u32> = index.term_postings(0).iter().map(|p| p.doc_id).collect();
    assert_eq!(four, vec![2]);
}
