use persistence::homology::{Chain, ChainComplex, PersistenceInterval};
use persistence::point_cloud::{is_valid_distance_matrix, vietoris_rips_complex, PointCloudError};
use persistence::simplicial_complex::{Simplex, SimplicialComplex};
use std::collections::{HashMap, HashSet};

// Pairwise Euclidean distances of a point cloud, as order-preserving u64
// keys (the IEEE bit pattern of a non-negative double).
fn distance_keys(points: &[Vec<f64>]) -> Vec<Vec<u64>> {
    let n = points.len();
    let mut matrix = vec![vec![0u64; n]; n];
    for i in 0..n {
        for j in 0..n {
            let dist: f64 = points[i]
                .iter()
                .zip(points[j].iter())
                .map(|(a, b)| (a - b) * (a - b))
                .sum::<f64>()
                .sqrt();
            matrix[i][j] = dist.to_bits();
        }
    }
    matrix
}

#[derive(Debug, PartialEq)]
struct Interval {
    birth: f64,
    birth_chain: HashSet<Vec<usize>>,
    death: f64,
    death_chain: HashSet<Vec<usize>>,
}

fn resolve(
    complex: &SimplicialComplex,
    intervals: &[Vec<PersistenceInterval>],
) -> HashMap<usize, Vec<Interval>> {
    let mut out = HashMap::new();
    for (dim, ints) in intervals.iter().enumerate() {
        let mut rows = Vec::new();
        for interval in ints {
            let birth_chain: HashSet<Vec<usize>> = interval
                .birth_chain
                .iter()
                .map(|c| complex.chain(*c).vertices.clone())
                .collect();
            let death_chain: HashSet<Vec<usize>> = match &interval.death_chain {
                Some(chain) => chain
                    .iter()
                    .map(|c| complex.chain(*c).vertices.clone())
                    .collect(),
                None => HashSet::new(),
            };
            rows.push(Interval {
                birth: f64::from_bits(interval.birth),
                birth_chain,
                death: match interval.death {
                    Some(d) => f64::from_bits(d),
                    None => f64::INFINITY,
                },
                death_chain,
            });
        }
        out.insert(dim, rows);
    }
    out
}

#[test]
fn test_triangle() {
    let points = vec![vec![0.0, 0.0], vec![1.0, 0.0], vec![1.0, 2.0]];
    let dist_matrix = distance_keys(&points);
    let sqrt5 = (5.0f64).sqrt();
    let expected: Vec<Vec<u64>> = vec![
        vec![0.0f64.to_bits(), 1.0f64.to_bits(), sqrt5.to_bits()],
        vec![1.0f64.to_bits(), 0.0f64.to_bits(), 2.0f64.to_bits()],
        vec![sqrt5.to_bits(), 2.0f64.to_bits(), 0.0f64.to_bits()],
    ];
    assert_eq!(dist_matrix, expected);

    let complex = vietoris_rips_complex(&dist_matrix, 2, 10.0f64.to_bits()).unwrap();
    println!("Simplicial complex of {:?}", complex.simplices);
    println!("Filtration {:?}", complex.levels);
    let expected = vec![
        Simplex::new(vec![0]),
        Simplex::new(vec![1]),
        Simplex::new(vec![2]),
        Simplex::new(vec![0, 1]),
        Simplex::new(vec![1, 2]),
        Simplex::new(vec![0, 2]),
        Simplex::new(vec![0, 1, 2]),
    ];
    assert_eq!(complex.simplices, expected);

    let expected: Vec<u64> = [0.0f64, 0.0, 0.0, 1.0, 2.0, sqrt5, sqrt5]
        .iter()
        .map(|l| l.to_bits())
        .collect();
    assert_eq!(complex.levels, expected);
}

#[test]
fn test_square() {
    // Given
    let points = vec![
        vec![0.0, 0.0],
        vec![1.0, 0.0],
        vec![1.0, 1.0],
        vec![0.0, 1.0],
    ];
    let dist_matrix = distance_keys(&points);

    // When
    let complex = vietoris_rips_complex(&dist_matrix, 2, 10.0f64.to_bits()).unwrap();
    println!("Simplicial complex {:?}", complex);
    let all_intervals = complex.persistence_intervals().unwrap();
    println!("Persistence intervals {:?}", all_intervals);

    // Then
    let sqrt2 = std::f64::consts::SQRT_2;
    let expected: HashMap<usize, Vec<Interval>> = HashMap::from([
        (
            0,
            vec![
                Interval {
                    birth: 0.0,
                    birth_chain: HashSet::from([vec![1]]),
                    death: 1.0,
                    death_chain: HashSet::from([vec![0, 1]]),
                },
                Interval {
                    birth: 0.0,
                    birth_chain: HashSet::from([vec![3]]),
                    death: 1.0,
                    death_chain: HashSet::from([vec![0, 3]]),
                },
                Interval {
                    birth: 0.0,
                    birth_chain: HashSet::from([vec![2]]),
                    death: 1.0,
                    death_chain: HashSet::from([vec![1, 2]]),
                },
                Interval {
                    birth: 0.0,
                    birth_chain: HashSet::from([vec![0]]),
                    death: f64::INFINITY,
                    death_chain: HashSet::new(),
                },
            ],
        ),
        (
            1,
            vec![
                Interval {
                    birth: sqrt2,
                    birth_chain: HashSet::from([vec![0, 2], vec![0, 1], vec![1, 2]]),
                    death: sqrt2,
                    death_chain: HashSet::from([vec![0, 1, 2]]),
                },
                Interval {
                    birth: sqrt2,
                    birth_chain: HashSet::from([vec![0, 1], vec![1, 3], vec![0, 3]]),
                    death: sqrt2,
                    death_chain: HashSet::from([vec![0, 1, 3]]),
                },
                Interval {
                    birth: 1.0,
                    birth_chain: HashSet::from([
                        vec![2, 3],
                        vec![0, 1],
                        vec![1, 2],
                        vec![0, 3],
                    ]),
                    death: sqrt2,
                    death_chain: HashSet::from([vec![0, 1, 2], vec![0, 2, 3]]),
                },
            ],
        ),
        (
            2,
            vec![Interval {
                birth: sqrt2,
                birth_chain: HashSet::from([
                    vec![0, 2, 3],
                    vec![0, 1, 2],
                    vec![1, 2, 3],
                    vec![0, 1, 3],
                ]),
                death: f64::INFINITY,
                death_chain: HashSet::new(),
            }],
        ),
    ]);
    let resolved = resolve(&complex, &all_intervals);
    for (dim, intervals_dim) in &resolved {
        println!("=== {:?} ===", dim);
        for interval in intervals_dim {
            println!(
                "Birth: {:?} (level {:?} --- Death: {:?} (level {:?})",
                interval.birth_chain, interval.birth, interval.death_chain, interval.death
            );
        }
        assert_eq!(intervals_dim, &expected[dim]);
    }
    assert_eq!(resolved.len(), expected.len());
}

#[test]
fn test_empty_cloud_rejected() {
    let empty: Vec<Vec<u64>> = Vec::new();
    match vietoris_rips_complex(&empty, 0, 0) {
        Err(PointCloudError::EmptyCloud) => {},
        other => panic!("expected an empty-cloud rejection, got {:?}", other),
    }
}

#[test]
fn test_invalid_dimension_rejected() {
    let points = vec![vec![0.0, 0.0], vec![1.0, 0.0]];
    let dist_matrix = distance_keys(&points);
    match vietoris_rips_complex(&dist_matrix, 2, 10.0f64.to_bits()) {
        Err(PointCloudError::InvalidDimension { max_dimension, n_points }) => {
            assert_eq!(max_dimension, 2);
            assert_eq!(n_points, 2);
        },
        other => panic!("expected a dimension rejection, got {:?}", other),
    }
}

#[test]
fn test_closure_in_constructed_complex() {
    // every face of every simplex of a Vietoris-Rips complex is present
    let points = vec![
        vec![0.0, 0.0],
        vec![1.0, 0.0],
        vec![1.0, 1.0],
        vec![0.0, 1.0],
    ];
    let dist_matrix = distance_keys(&points);
    let complex = vietoris_rips_complex(&dist_matrix, 2, 10.0f64.to_bits()).unwrap();
    for s in &complex.simplices {
        if s.vertices.len() > 1 {
            for skip in 0..s.vertices.len() {
                let face: Vec<usize> = s
                    .vertices
                    .iter()
                    .enumerate()
                    .filter(|(q, _)| *q != skip)
                    .map(|(_, v)| *v)
                    .collect();
                assert!(complex.index_of(&Simplex { vertices: face }).is_some());
            }
        }
    }
}

#[test]
fn test_dimension_zero_complex() {
    // a single point: one vertex, one unbounded component
    let points = vec![vec![0.0, 0.0]];
    let dist_matrix = distance_keys(&points);
    let complex = vietoris_rips_complex(&dist_matrix, 0, 0.0f64.to_bits()).unwrap();
    assert_eq!(complex.simplices, vec![Simplex::new(vec![0])]);
    assert_eq!(complex.simplices[0].dim(), 0);
    let intervals = complex.persistence_intervals().unwrap();
    assert_eq!(intervals.len(), 1);
    assert_eq!(intervals[0].len(), 1);
    assert_eq!(intervals[0][0].death, None);
}

#[test]
fn test_distance_matrix_properties() {
    // symmetric, zero diagonal, and the triangle inequality for Euclidean
    // input
    let points = vec![
        vec![0.3, -1.5],
        vec![2.0, 0.25],
        vec![-0.75, 4.0],
        vec![1.0, 1.0],
    ];
    let keys = distance_keys(&points);
    assert!(is_valid_distance_matrix(&keys));
    let n = points.len();
    for i in 0..n {
        assert_eq!(keys[i][i], 0);
        for j in 0..n {
            assert_eq!(keys[i][j], keys[j][i]);
            for k in 0..n {
                let dij = f64::from_bits(keys[i][j]);
                let djk = f64::from_bits(keys[j][k]);
                let dik = f64::from_bits(keys[i][k]);
                assert!(dik <= dij + djk + 1e-12);
            }
        }
    }
}

#[test]
fn test_distance_matrix_validator_rejects() {
    // ragged
    assert!(!is_valid_distance_matrix(&vec![vec![0, 1], vec![1]]));
    // nonzero diagonal
    assert!(!is_valid_distance_matrix(&vec![vec![1, 2], vec![2, 0]]));
    // asymmetric
    assert!(!is_valid_distance_matrix(&vec![vec![0, 2], vec![3, 0]]));
    // well-formed
    assert!(is_valid_distance_matrix(&vec![vec![0, 2], vec![2, 0]]));
}
