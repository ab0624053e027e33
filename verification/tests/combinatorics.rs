use persistence::combinatorics::{
    generate_combinations, generate_products, generate_subsets, CartesianProduct, Combinations,
    CombinatoricsError,
};

#[test]
fn test_combinations_iterator() {
    let elements = vec![1, 2, 3, 4];
    let mut combinations = Combinations::new(&elements, 2).unwrap();
    let mut result: Vec<Vec<i32>> = Vec::new();
    while let Some(c) = combinations.next() {
        result.push(c);
    }
    assert_eq!(result.len(), 6); // C(4,2) = 6
    assert!(result.contains(&vec![1, 2]));
    assert!(result.contains(&vec![3, 4]));
}

#[test]
fn test_cartesian_product_iterator() {
    let elements = vec![1, 2, 3, 4];
    let mut cartesian_products = CartesianProduct::new(&elements, 2).unwrap();
    let mut result: Vec<Vec<i32>> = Vec::new();
    while let Some(c) = cartesian_products.next() {
        result.push(c);
    }
    assert_eq!(result.len(), 16); // P(4,2) = 6
    println!("{:?}", result);
    for a in &elements {
        for b in &elements {
            assert!(result.contains(&vec![*a, *b]));
        }
    }
}

#[test]
fn test_cartesian_product() {
    let elements = vec![1, 2, 3, 4];
    let result = generate_products(&elements, 2).unwrap();
    assert_eq!(result.len(), 16); // P(4,2) = 6
    println!("{:?}", result);
    for a in &elements {
        for b in &elements {
            assert!(result.contains(&vec![*a, *b]));
        }
    }
}

#[test]
fn test_invalid_combinations() {
    let elements = vec![1, 2, 3];
    assert!(Combinations::new(&elements, 4).is_err());
}

#[test]
fn test_generate_subsets() {
    let v = vec![1, 2, 3];
    let n = 2;
    let subsets = generate_subsets(&v, n);

    // Expected: [], [1], [2], [3], [1,2], [1,3], [2,3]
    assert_eq!(subsets.len(), 7);

    for subset in &subsets {
        println!("{:?}", subset);
        assert!(subset.len() <= n);
        assert!(subset.iter().all(|x| v.contains(x)));
    }
}

#[test]
fn test_large_input() {
    let v: Vec<i32> = (0..100).collect();
    assert!(generate_combinations(&v, 10).is_err());
}

#[test]
fn test_subset_count_binomial_sum() {
    // C(5,0) + C(5,1) + C(5,2) + C(5,3) = 1 + 5 + 10 + 10 = 26
    let v = vec![1, 2, 3, 4, 5];
    let subsets = generate_subsets(&v, 3);
    assert_eq!(subsets.len(), 26);
    assert_eq!(subsets[0], Vec::<i32>::new());
}

#[test]
fn test_combinations_lexicographic_order() {
    let elements = vec![10, 20, 30, 40];
    let result = generate_combinations(&elements, 2).unwrap();
    let expected = vec![
        vec![10, 20],
        vec![10, 30],
        vec![10, 40],
        vec![20, 30],
        vec![20, 40],
        vec![30, 40],
    ];
    assert_eq!(result, expected);
}

#[test]
fn test_large_input_reports_count() {
    // C(100, 10) = 17,310,309,456,440 exceeds the guard of 10,000,000
    let v: Vec<u32> = (0..100).collect();
    match generate_combinations(&v, 10) {
        Err(CombinatoricsError::TooLarge(c)) => assert_eq!(c, 17_310_309_456_440),
        other => panic!("expected the size guard to reject, got {:?}", other),
    }
}

#[test]
fn test_invalid_size_payload() {
    let v = vec![7u8, 8, 9];
    match generate_combinations(&v, 5) {
        Err(CombinatoricsError::InvalidSize { size, len }) => {
            assert_eq!(size, 5);
            assert_eq!(len, 3);
        },
        other => panic!("expected a size rejection, got {:?}", other),
    }
}

#[test]
fn test_products_counting_order() {
    let elements = vec![0usize, 1];
    let result = generate_products(&elements, 2).unwrap();
    assert_eq!(result, vec![vec![0, 0], vec![0, 1], vec![1, 0], vec![1, 1]]);
}
