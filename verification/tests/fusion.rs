use mini_hybrid_retrieval::fusion::{filter_candidates, is_candidate, rank_groups};

fn strings(xs: &[&str]) -> Vec<String> {
    xs.iter().map(|s| s.to_string()).collect()
}

#[test]
fn rank_groups_two_lists() {
    let lists = vec![strings(&["a", "b", "c"]), strings(&["b", "d", "a"])];
    let groups = rank_groups(&lists);
    assert_eq!(
        groups,
        vec![
            ("a".to_string(), vec![0, 2]),
            ("b".to_string(), vec![1, 0]),
            ("c".to_string(), vec![2]),
            ("d".to_string(), vec![1]),
        ]
    );
}

#[test]
fn rank_groups_single_list_keeps_order() {
    let groups = rank_groups(&[strings(&["x", "y", "z"])]);
    let ids: Vec<&str> = groups.iter().map(|g| g.0.as_str()).collect();
    assert_eq!(ids, vec!["x", "y", "z"]);
    assert!(rank_groups(&[]).is_empty());
}

#[test]
fn rank_groups_deduplicates() {
    let groups = rank_groups(&[strings(&["a"]), strings(&["a"])]);
    assert_eq!(groups, vec![("a".to_string(), vec![0, 0])]);
}

#[test]
fn candidate_filter_keeps_rank_order() {
    let ids = strings(&["d1", "d4", "d2", "d1"]);
    let candidates = strings(&["d2", "d1"]);
    assert_eq!(filter_candidates(&ids, &candidates), vec![0, 2, 3]);
    assert!(is_candidate(&candidates, "d2"));
    assert!(!is_candidate(&candidates, "d4"));
    assert!(filter_candidates(&ids, &[]).is_empty());
}

fn rrf_scores(lists: &[Vec<String>], k: usize) -> Vec<(String, f32)> {
    let mut fused: Vec<(String, f32)> = rank_groups(lists)
        .into_iter()
        .map(|(id, ranks)| {
            let mut score = 0.0f32;
            for rank in ranks {
                score += 1.0 / (k as f32 + rank as f32 + 1.0);
            }
            (id, score)
        })
        .collect();
    fused.sort_by(|a, b| b.1.partial_cmp(&a.1).unwrap_or(std::cmp::Ordering::Equal));
    fused
}

#[test]
fn rank_group_scores_two_lists() {
    let list1 = strings(&["a", "b", "c"]);
    let list2 = strings(&["b", "d", "a"]);
    let fused = rrf_scores(&[list1, list2], 60);
    assert_eq!(fused.len(), 4);
    let top2: Vec<f32> = fused[..2].iter().map(|r| r.1).collect();
    let bottom2: Vec<f32> = fused[2..].iter().map(|r| r.1).collect();
    assert!(top2.iter().all(|s| *s > bottom2.iter().cloned().fold(f32::NEG_INFINITY, f32::max)));
}

#[test]
fn rank_group_scores_single_list() {
    let fused = rrf_scores(&[strings(&["x", "y", "z"])], 60);
    assert_eq!(fused.len(), 3);
    assert_eq!(fused[0].0, "x");
    assert_eq!(fused[1].0, "y");
    assert_eq!(fused[2].0, "z");
}

#[test]
fn rank_group_scores_empty() {
    let fused = rrf_scores(&[], 60);
    assert!(fused.is_empty());
}

#[test]
fn rank_group_scores_deduplication() {
    let k = 60;
    let fused = rrf_scores(&[strings(&["a"]), strings(&["a"])], k);
    assert_eq!(fused.len(), 1);
    assert_eq!(fused[0].0, "a");
    let expected = 2.0 / (k as f32 + 1.0);
    assert!((fused[0].1 - expected).abs() < 1e-6);
}
