use mini_hybrid_retrieval::wand::{
    advance_first_to, advance_matching, group_by_doc, matching_terms, open_cursors, retain_live,
    sort_by_current, Posting, PostingCursor,
};

fn list(pairs: &[(u32, u32)]) -> Vec<Posting> {
    pairs.iter().map(|&(doc_id, tf)| Posting { doc_id, tf }).collect()
}

#[test]
fn cursor_advance_to_stops_at_first_doc_not_below_target() {
    let ps = list(&[(1, 1), (4, 2), (6, 1), (9, 3)]);
    let mut c = PostingCursor::new(0, &ps);
    assert_eq!(c.current_doc_id(), 1);
    c.advance_to(5);
    assert_eq!(c.current_doc_id(), 6);
    assert_eq!(c.current_tf(), 1);
    c.advance_to(6);
    assert_eq!(c.current_doc_id(), 6);
    c.advance_to(2);
    assert_eq!(c.current_doc_id(), 6);
    c.advance_to(10);
    assert!(c.is_exhausted());
    assert_eq!(c.list_len(), 4);
}

#[test]
fn cursor_advance_steps_one_posting() {
    let ps = list(&[(3, 1), (8, 2)]);
    let mut c = PostingCursor::new(7, &ps);
    assert_eq!(c.term_index(), 7);
    c.advance();
    assert_eq!(c.current_doc_id(), 8);
    c.advance();
    assert!(c.is_exhausted());
}

#[test]
fn wand_cursor_round() {
    let lists = vec![list(&[]), list(&[(2, 1), (5, 2)]), list(&[(0, 4), (2, 3)])];
    let mut cs = open_cursors(&lists);
    assert_eq!(cs.len(), 2);
    assert_eq!(cs[0].term_index(), 1);
    assert_eq!(cs[1].term_index(), 2);
    sort_by_current(&mut cs);
    assert_eq!(cs[0].term_index(), 2);
    assert_eq!(cs[0].current_doc_id(), 0);
    advance_first_to(&mut cs, 1, 2);
    assert_eq!(cs[0].current_doc_id(), 2);
    assert_eq!(matching_terms(&cs, 2), vec![(3, 2), (1, 2)]);
    advance_matching(&mut cs, 2);
    assert!(cs[0].is_exhausted());
    assert_eq!(cs[1].current_doc_id(), 5);
    retain_live(&mut cs);
    assert_eq!(cs.len(), 1);
    assert_eq!(cs[0].term_index(), 1);
    assert!(matching_terms(&cs, 2).is_empty());
}

#[test]
fn sort_by_current_is_stable() {
    let a = list(&[(4, 1)]);
    let b = list(&[(1, 1)]);
    let c = list(&[(4, 2)]);
    let mut cs = vec![PostingCursor::new(0, &a), PostingCursor::new(1, &b), PostingCursor::new(2, &c)];
    sort_by_current(&mut cs);
    let terms: Vec<usize> = cs.iter().map(|c| c.term_index()).collect();
    assert_eq!(terms, vec![1, 0, 2]);
}

#[test]
fn full_scan_groups_postings_by_doc() {
    let lists = vec![list(&[(0, 3), (2, 1)]), list(&[(0, 2), (1, 4), (3, 1)])];
    let groups = group_by_doc(&lists);
    assert_eq!(
        groups,
        vec![
            (0, vec![(3, 2), (2, 3)]),
            (2, vec![(1, 2)]),
            (1, vec![(4, 3)]),
            (3, vec![(1, 3)]),
        ]
    );
    assert!(group_by_doc(&[]).is_empty());
}
