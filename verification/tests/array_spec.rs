use echo::array_spec::{array_sizes, payload_size, ArraySpec};

#[test]
fn test_num_bytes_is_elements_times_element_size() {
    assert_eq!(ArraySpec::new(vec![3, 4], 8).num_bytes(), 96);
    assert_eq!(ArraySpec::new(vec![84, 84, 4], 1).num_bytes(), 28224);
}

#[test]
fn test_num_bytes_of_a_scalar() {
    assert_eq!(ArraySpec::new(vec![], 4).num_bytes(), 4);
}

#[test]
fn test_num_bytes_with_an_empty_dimension() {
    assert_eq!(ArraySpec::new(vec![3, 0, 5], 4).num_bytes(), 0);
}

#[test]
fn test_sizes_of_a_sample() {
    let specs = vec![
        ArraySpec::new(vec![2, 3], 4),
        ArraySpec::new(vec![], 8),
        ArraySpec::new(vec![5], 1),
    ];
    assert_eq!(array_sizes(&specs), vec![24, 8, 5]);
    assert_eq!(payload_size(&specs), 37);
    assert_eq!(payload_size(&vec![]), 0);
}
