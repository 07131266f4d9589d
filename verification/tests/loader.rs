use mini_hybrid_retrieval::loader::check_dimensions;

fn dims(xs: &[(&str, usize)]) -> Vec<(String, usize)> {
    xs.iter().map(|&(id, d)| (id.to_string(), d)).collect()
}

#[test]
fn dimensions_agree() {
    assert!(check_dimensions(&dims(&[])).is_ok());
    assert!(check_dimensions(&dims(&[("d1", 2)])).is_ok());
    assert!(check_dimensions(&dims(&[("d1", 2), ("d2", 2), ("d3", 2)])).is_ok());
}

#[test]
fn dimension_mismatch_names_first_offender() {
    match check_dimensions(&dims(&[("d1", 2), ("d2", 2), ("d3", 1), ("d4", 5)])) {
        Err(e) => {
            assert_eq!(e.doc_id, "d3");
            assert_eq!(e.found, 1);
            assert_eq!(e.expected, 2);
        }
        Ok(()) => panic!("a mismatch was expected"),
    }
}

#[test]
fn test_load_documents_dimension_mismatch() {
    let result = check_dimensions(&dims(&[("d1", 2), ("d2", 1)]));
    assert!(result.is_err());
}
