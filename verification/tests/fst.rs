use mini_hybrid_retrieval::fst::{Fst, FstBuilder, FstNode, FstTransition};

#[test]
fn test_fst_single_key() {
    let mut builder = FstBuilder::new();
    builder.insert(b"cat", 42);
    let fst = builder.build();
    assert_eq!(fst.get(b"cat"), Some(42));
}

#[test]
fn test_fst_multiple_keys() {
    let mut builder = FstBuilder::new();
    builder.insert(b"cat", 1);
    builder.insert(b"dog", 2);
    builder.insert(b"elephant", 3);
    let fst = builder.build();
    assert_eq!(fst.get(b"cat"), Some(1));
    assert_eq!(fst.get(b"dog"), Some(2));
    assert_eq!(fst.get(b"elephant"), Some(3));
}

#[test]
fn test_fst_missing_key() {
    let mut builder = FstBuilder::new();
    builder.insert(b"cat", 1);
    let fst = builder.build();
    assert_eq!(fst.get(b"dog"), None);
}

#[test]
fn test_fst_empty() {
    let builder = FstBuilder::new();
    let fst = builder.build();
    assert_eq!(fst.get(b"anything"), None);
}

#[test]
fn test_fst_shared_prefix() {
    let mut builder = FstBuilder::new();
    builder.insert(b"car", 1);
    builder.insert(b"cat", 2);
    builder.insert(b"cab", 3);
    let fst = builder.build();
    assert_eq!(fst.get(b"car"), Some(1));
    assert_eq!(fst.get(b"cat"), Some(2));
    assert_eq!(fst.get(b"cab"), Some(3));
}

#[test]
fn test_fst_output_accumulation() {
    let mut builder = FstBuilder::new();
    builder.insert(b"a", 10);
    builder.insert(b"ab", 20);
    let fst = builder.build();
    assert_eq!(fst.get(b"a"), Some(10));
    assert_eq!(fst.get(b"ab"), Some(20));
}

#[test]
fn test_fst_prefix_search_basic() {
    let mut builder = FstBuilder::new();
    builder.insert(b"car", 1);
    builder.insert(b"cat", 2);
    builder.insert(b"cab", 3);
    builder.insert(b"dog", 4);
    let fst = builder.build();
    let results = fst.prefix_search(b"ca");
    assert_eq!(results.len(), 3);
    assert_eq!(results[0], (String::from("cab"), 3));
    assert_eq!(results[1], (String::from("car"), 1));
    assert_eq!(results[2], (String::from("cat"), 2));
}

#[test]
fn test_fst_prefix_search_exact_key() {
    let mut builder = FstBuilder::new();
    builder.insert(b"cat", 2);
    builder.insert(b"catalog", 5);
    let fst = builder.build();
    let results = fst.prefix_search(b"cat");
    assert_eq!(results.len(), 2);
    assert_eq!(results[0], (String::from("cat"), 2));
    assert_eq!(results[1], (String::from("catalog"), 5));
}

#[test]
fn test_fst_prefix_search_no_match() {
    let mut builder = FstBuilder::new();
    builder.insert(b"cat", 1);
    let fst = builder.build();
    let results = fst.prefix_search(b"do");
    assert!(results.is_empty());
}

#[test]
fn test_fst_prefix_search_empty_prefix() {
    let mut builder = FstBuilder::new();
    builder.insert(b"cat", 1);
    builder.insert(b"dog", 2);
    let fst = builder.build();
    let results = fst.prefix_search(b"");
    assert_eq!(results.len(), 2);
}

#[test]
fn fst_last_insert_wins() {
    let mut builder = FstBuilder::new();
    builder.insert(b"key", 1);
    builder.insert(b"other", 7);
    builder.insert(b"key", 9);
    let fst = builder.build();
    assert_eq!(fst.get(b"key"), Some(9));
    assert_eq!(fst.get(b"other"), Some(7));
    assert_eq!(fst.get(b"ke"), None);
    assert_eq!(fst.get(b"keys"), None);
}

#[test]
fn fst_empty_key() {
    let mut builder = FstBuilder::new();
    builder.insert(b"", 5);
    builder.insert(b"x", 6);
    let fst = builder.build();
    assert_eq!(fst.get(b""), Some(5));
    assert_eq!(fst.get(b"x"), Some(6));
}

#[test]
fn fst_prefix_entries_bytes_in_order() {
    let mut builder = FstBuilder::new();
    builder.insert(b"zeta", 1);
    builder.insert(b"alpha", 2);
    builder.insert(b"alp", 3);
    builder.insert(b"beta", 4);
    let fst = builder.build();
    let all = fst.prefix_entries(b"");
    assert_eq!(
        all,
        vec![
            (b"alp".to_vec(), 3),
            (b"alpha".to_vec(), 2),
            (b"beta".to_vec(), 4),
            (b"zeta".to_vec(), 1),
        ]
    );
    let al = fst.prefix_entries(b"al");
    assert_eq!(al, vec![(b"alp".to_vec(), 3), (b"alpha".to_vec(), 2)]);
    assert!(fst.prefix_entries(b"q").is_empty());
}

#[test]
fn fst_prefix_search_decodes_invalid_utf8_lossily() {
    let mut builder = FstBuilder::new();
    builder.insert(&[0x61, 0xff], 1);
    builder.insert(b"ab", 2);
    let fst = builder.build();
    let results = fst.prefix_search(b"a");
    assert_eq!(results.len(), 2);
    assert_eq!(results[0], (String::from("ab"), 2));
    assert_eq!(results[1], (String::from("a\u{fffd}"), 1));
}

#[test]
fn fst_build_shares_prefixes() {
    let mut builder = FstBuilder::new();
    builder.insert(b"car", 1);
    builder.insert(b"cat", 2);
    builder.insert(b"cab", 3);
    let fst = builder.build();
    // root, c, ca, cab, car, cat
    assert_eq!(fst.nodes.len(), 6);
    assert_eq!(fst.nodes.iter().filter(|n| n.is_final).count(), 3);
    assert!(!fst.nodes[0].is_final);
    assert_eq!(fst.nodes[0].transitions.len(), 1);
    assert_eq!(fst.nodes[0].transitions[0].0, b'c');
    let mut incoming = vec![0usize; fst.nodes.len()];
    for (n, node) in fst.nodes.iter().enumerate() {
        for (_, t) in node.transitions.iter() {
            assert_eq!(t.output, 0);
            assert!(n < t.target);
            incoming[t.target] += 1;
        }
        if !node.is_final {
            assert_eq!(node.final_output, 0);
        }
    }
    assert_eq!(incoming[0], 0);
    assert!(incoming[1..].iter().all(|&c| c == 1));
}

#[test]
fn fst_build_empty_and_repeated_keys() {
    let mut builder = FstBuilder::new();
    builder.insert(b"", 4);
    builder.insert(b"ab", 1);
    builder.insert(b"ab", 2);
    let fst = builder.build();
    // root, a, ab
    assert_eq!(fst.nodes.len(), 3);
    assert!(fst.nodes[0].is_final);
    assert_eq!(fst.nodes[0].final_output, 4);
    assert_eq!(fst.nodes.iter().filter(|n| n.is_final).count(), 2);
    assert_eq!(fst.get(b"ab"), Some(2));
}

#[test]
fn fst_get_follows_cycles() {
    let fst = Fst {
        nodes: vec![
            FstNode { transitions: vec![(b'a', FstTransition { target: 1, output: 0 })], is_final: false, final_output: 0 },
            FstNode { transitions: vec![(b'b', FstTransition { target: 0, output: 0 })], is_final: true, final_output: 9 },
        ],
    };
    assert_eq!(fst.get(b"a"), Some(9));
    assert_eq!(fst.get(b"aba"), Some(9));
    assert_eq!(fst.get(b"ab"), None);
    assert_eq!(fst.get(b"b"), None);
}

#[test]
fn fst_build_numbers_nodes_in_byte_order() {
    let mut builder = FstBuilder::new();
    builder.insert(b"cat", 2);
    builder.insert(b"b", 7);
    builder.insert(b"car", 1);
    builder.insert(b"cab", 3);
    let fst = builder.build();
    let mut paths: Vec<Vec<u8>> = vec![Vec::new(); fst.nodes.len()];
    for (n, node) in fst.nodes.iter().enumerate() {
        for (byte, t) in node.transitions.iter() {
            let mut p = paths[n].clone();
            p.push(*byte);
            paths[t.target] = p;
        }
    }
    let expected: Vec<Vec<u8>> = vec![
        b"".to_vec(),
        b"b".to_vec(),
        b"c".to_vec(),
        b"ca".to_vec(),
        b"cab".to_vec(),
        b"car".to_vec(),
        b"cat".to_vec(),
    ];
    assert_eq!(paths, expected);
    assert_eq!(fst.nodes[1].final_output, 7);
    assert_eq!(fst.nodes[4].final_output, 3);
}
