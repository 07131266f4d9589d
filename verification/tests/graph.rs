use mini_hybrid_retrieval::candidates::candidate_docs;
use mini_hybrid_retrieval::graph::GraphIndex;
use mini_hybrid_retrieval::types::Triple;

fn triple(s: &str, p: &str, o: &str) -> Triple {
    Triple { subject: s.to_string(), predicate: p.to_string(), object: o.to_string() }
}

fn sample_graph() -> GraphIndex {
    let triples = vec![
        triple("Rust", "influenced_by", "C++"),
        triple("C++", "influenced_by", "C"),
    ];
    let entity_docs = vec![
        ("Rust".to_string(), vec!["d1".to_string(), "d3".to_string()]),
        ("C++".to_string(), vec!["d2".to_string()]),
    ];
    GraphIndex::new(triples, entity_docs)
}

#[test]
fn graph_entity_docs() {
    let g = sample_graph();
    assert_eq!(g.get_entity_docs("Rust").to_vec(), vec!["d1".to_string(), "d3".to_string()]);
    assert_eq!(g.get_entity_docs("C++").to_vec(), vec!["d2".to_string()]);
    assert!(g.get_entity_docs("C").is_empty());
}

#[test]
fn graph_entity_docs_last_entry_wins() {
    let entity_docs = vec![
        ("X".to_string(), vec!["old".to_string()]),
        ("X".to_string(), vec!["new".to_string()]),
    ];
    let g = GraphIndex::new(Vec::new(), entity_docs);
    assert_eq!(g.get_entity_docs("X").to_vec(), vec!["new".to_string()]);
}

#[test]
fn graph_search_two_hops() {
    let g = sample_graph();
    let hits = g.search("Rust", 2, 10);
    assert_eq!(hits.len(), 2);
    assert_eq!(hits[0].id, "C++");
    assert_eq!(hits[0].hops, 1);
    assert_eq!(hits[0].snippet, "Rust --influenced_by--> C++ (docs: d2)");
    assert_eq!(hits[1].id, "C");
    assert_eq!(hits[1].hops, 2);
    assert_eq!(hits[1].snippet, "C++ --influenced_by--> C");
}

#[test]
fn graph_search_one_hop_and_incoming_edges() {
    let g = sample_graph();
    let hits = g.search("Rust", 1, 10);
    assert_eq!(hits.len(), 1);
    assert_eq!(hits[0].id, "C++");
    let back = g.search("C", 1, 10);
    assert_eq!(back.len(), 1);
    assert_eq!(back[0].id, "C++");
    assert_eq!(back[0].snippet, "C --influenced_by--> C++ (docs: d2)");
    let both = g.search("C++", 2, 10);
    assert_eq!(both.len(), 2);
    assert_eq!(both[0].id, "C");
    assert_eq!(both[0].snippet, "C++ --influenced_by--> C");
    assert_eq!(both[1].id, "Rust");
    assert_eq!(both[1].snippet, "C++ --influenced_by--> Rust (docs: d1, d3)");
}

#[test]
fn graph_search_zero_hops_still_finds_neighbors() {
    let g = sample_graph();
    let hits = g.search("Rust", 0, 10);
    assert_eq!(hits.len(), 1);
    assert_eq!(hits[0].hops, 1);
}

#[test]
fn graph_search_unknown_entity_and_top_k() {
    let g = sample_graph();
    assert!(g.search("Go", 2, 10).is_empty());
    let hits = g.search("Rust", 2, 1);
    assert_eq!(hits.len(), 1);
    assert_eq!(hits[0].id, "C++");
    assert!(g.search("Rust", 2, 0).is_empty());
}

#[test]
fn graph_search_self_loop_skips_seed() {
    let g = GraphIndex::new(vec![triple("A", "is", "A"), triple("A", "knows", "B")], Vec::new());
    let hits = g.search("A", 3, 10);
    assert_eq!(hits.len(), 1);
    assert_eq!(hits[0].id, "B");
}

#[test]
fn hybrid_candidates_include_neighbor_docs() {
    let g = sample_graph();
    assert_eq!(
        candidate_docs(&g, "Rust"),
        vec!["d1".to_string(), "d2".to_string(), "d3".to_string()]
    );
    assert_eq!(candidate_docs(&g, "C"), vec!["d2".to_string()]);
    assert!(candidate_docs(&g, "Go").is_empty());
}

#[test]
fn hybrid_candidates_sorted_without_repeats() {
    let triples = vec![triple("E", "r", "F"), triple("G", "r", "E")];
    let entity_docs = vec![
        ("E".to_string(), vec!["z".to_string(), "b".to_string()]),
        ("F".to_string(), vec!["b".to_string(), "a".to_string()]),
        ("G".to_string(), vec!["z".to_string(), "B".to_string()]),
    ];
    let g = GraphIndex::new(triples, entity_docs);
    assert_eq!(
        candidate_docs(&g, "E"),
        vec!["B".to_string(), "a".to_string(), "b".to_string(), "z".to_string()]
    );
}

#[test]
fn test_graph_search_traverses_hops() {
    let triples = vec![
        triple("Rust", "influenced_by", "C++"),
        triple("C++", "influenced_by", "C"),
        triple("Python", "used_in", "DataScience"),
    ];
    let entity_docs = vec![
        ("Rust".to_string(), vec!["doc_001".to_string(), "doc_007".to_string()]),
        ("C++".to_string(), vec!["doc_003".to_string()]),
    ];
    let g = GraphIndex::new(triples, entity_docs);
    let results = g.search("Rust", 2, 10);
    assert!(!results.is_empty());
    let ids: Vec<&str> = results.iter().map(|r| r.id.as_str()).collect();
    assert!(ids.contains(&"C++"));
    assert!(ids.contains(&"C"));
    assert_eq!(
        candidate_docs(&g, "Rust"),
        vec!["doc_001".to_string(), "doc_003".to_string(), "doc_007".to_string()]
    );
}
