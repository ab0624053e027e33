use persistence::homology::{Chain, ChainComplex, PersistenceInterval};
use persistence::homology::HomologyError;
use persistence::persistence::{compute_boundary_op, Simplex as BareSimplex};
use persistence::simplicial_complex::{Simplex, SimplicialComplex, SimplicialComplexError};
use std::collections::{HashMap, HashSet};

#[test]
fn test_simplex_validation() {
    assert!(Simplex::new(vec![0]).validate().is_ok());
    assert!(Simplex::new(vec![]).validate().is_err());
    assert!(Simplex::new(vec![0, 0]).validate().is_err());
}

#[test]
fn test_simplicial_complex_creation() {
    let result = SimplicialComplex::new(vec![Simplex::new(vec![])], vec![0u64]);
    assert!(result.is_err());

    let result = SimplicialComplex::new(vec![Simplex::new(vec![0])], vec![0u64, 1]);
    assert!(result.is_err());

    let result = SimplicialComplex::new(
        vec![Simplex::new(vec![0]), Simplex::new(vec![0])],
        vec![0u64],
    );
    assert!(result.is_err());
}

#[derive(Debug, PartialEq)]
struct Interval {
    birth: f64,
    birth_chain: HashSet<Vec<usize>>,
    death: f64,
    death_chain: HashSet<Vec<usize>>,
}

fn resolve(
    complex: &SimplicialComplex,
    intervals: &[Vec<PersistenceInterval>],
) -> HashMap<usize, Vec<Interval>> {
    let mut out = HashMap::new();
    for (dim, ints) in intervals.iter().enumerate() {
        let mut rows = Vec::new();
        for interval in ints {
            let birth_chain: HashSet<Vec<usize>> = interval
                .birth_chain
                .iter()
                .map(|c| complex.chain(*c).vertices.clone())
                .collect();
            let death_chain: HashSet<Vec<usize>> = match &interval.death_chain {
                Some(chain) => chain
                    .iter()
                    .map(|c| complex.chain(*c).vertices.clone())
                    .collect(),
                None => HashSet::new(),
            };
            rows.push(Interval {
                birth: f64::from_bits(interval.birth),
                birth_chain,
                death: match interval.death {
                    Some(d) => f64::from_bits(d),
                    None => f64::INFINITY,
                },
                death_chain,
            });
        }
        out.insert(dim, rows);
    }
    out
}

#[test]
fn test_simplicial_complex() {
    let simplex0 = Simplex::new(vec![0]);
    let simplex1 = Simplex::new(vec![1]);
    let simplex01 = Simplex::new(vec![0, 1]);
    let levels = vec![0.0f64.to_bits(), 1.0f64.to_bits(), 1.0f64.to_bits()];
    let complex =
        SimplicialComplex::new(vec![simplex0, simplex1, Simplex::new(vec![0, 1])], levels)
            .unwrap();

    assert_eq!(simplex01.dim(), 1);
    assert_eq!(complex.len(), 3);

    for i in 0..complex.len() {
        let boundary = complex.boundary(i).unwrap();
        println!("d.{:?} is {:?}", complex.chain(i), boundary);
    }
}

#[test]
fn test_persistence_intervals_paper_example() {
    // Given
    let simplices = vec![
        Simplex { vertices: vec![0] },
        Simplex { vertices: vec![1] },
        Simplex { vertices: vec![2] },
        Simplex { vertices: vec![3] },
        Simplex { vertices: vec![0, 1] },
        Simplex { vertices: vec![1, 2] },
        Simplex { vertices: vec![2, 3] },
        Simplex { vertices: vec![0, 3] },
        Simplex { vertices: vec![0, 2] },
        Simplex { vertices: vec![0, 1, 2] },
        Simplex { vertices: vec![0, 2, 3] },
    ];
    let levels: Vec<u64> = [0.0f64, 0.0, 1.0, 1.0, 1.0, 1.0, 2.0, 2.0, 3.0, 4.0, 5.0]
        .iter()
        .map(|l| l.to_bits())
        .collect();
    assert_eq!(simplices.len(), levels.len());

    let complex = SimplicialComplex::new(simplices, levels).unwrap();

    // When
    let all_intervals = complex.persistence_intervals().unwrap();
    println!("Result {:?}", all_intervals);

    // Then
    let expected: HashMap<usize, Vec<Interval>> = HashMap::from([
        (
            0,
            vec![
                Interval {
                    birth: 0.0,
                    birth_chain: HashSet::from([vec![1]]),
                    death: 1.0,
                    death_chain: HashSet::from([vec![0, 1]]),
                },
                Interval {
                    birth: 1.0,
                    birth_chain: HashSet::from([vec![2]]),
                    death: 1.0,
                    death_chain: HashSet::from([vec![1, 2]]),
                },
                Interval {
                    birth: 1.0,
                    birth_chain: HashSet::from([vec![3]]),
                    death: 2.0,
                    death_chain: HashSet::from([vec![2, 3]]),
                },
                Interval {
                    birth: 0.0,
                    birth_chain: HashSet::from([vec![0]]),
                    death: f64::INFINITY,
                    death_chain: HashSet::new(),
                },
            ],
        ),
        (
            1,
            vec![
                Interval {
                    birth: 3.0,
                    birth_chain: HashSet::from([vec![0, 2], vec![0, 1], vec![1, 2]]),
                    death: 4.0,
                    death_chain: HashSet::from([vec![0, 1, 2]]),
                },
                Interval {
                    birth: 2.0,
                    birth_chain: HashSet::from([
                        vec![0, 3],
                        vec![0, 1],
                        vec![1, 2],
                        vec![2, 3],
                    ]),
                    death: 5.0,
                    death_chain: HashSet::from([vec![0, 1, 2], vec![0, 2, 3]]),
                },
            ],
        ),
        (2, vec![]),
    ]);
    let resolved = resolve(&complex, &all_intervals);
    for (dim, intervals_dim) in &resolved {
        println!("=== {:?} ===", dim);
        for interval in intervals_dim {
            println!(
                "Birth: {:?} (level {:?} --- Death: {:?} (level {:?})",
                interval.birth_chain, interval.birth, interval.death_chain, interval.death
            );
        }
        assert_eq!(intervals_dim, &expected[dim]);
    }
    assert_eq!(resolved.len(), expected.len());
}

#[test]
fn test_length_mismatch_payload() {
    match SimplicialComplex::new(vec![Simplex::new(vec![0]), Simplex::new(vec![1])], vec![0u64]) {
        Err(SimplicialComplexError::LengthMismatch { n_simplices, n_levels }) => {
            assert_eq!(n_simplices, 2);
            assert_eq!(n_levels, 1);
        },
        other => panic!("expected a length mismatch, got {:?}", other),
    }
}

#[test]
fn test_duplicate_vertex_reported() {
    let s = Simplex { vertices: vec![3, 5, 3] };
    match s.validate() {
        Err(SimplicialComplexError::InvalidSimplex { duplicate }) => {
            assert_eq!(duplicate, Some(3));
        },
        other => panic!("expected a duplicate-vertex rejection, got {:?}", other),
    }
}

#[test]
fn test_missing_face_is_reported() {
    // an edge without its endpoints: the closure property is broken
    let complex =
        SimplicialComplex::new(vec![Simplex::new(vec![0, 1])], vec![0u64]).unwrap();
    match complex.persistence_intervals() {
        Err(HomologyError::MissingFace { chain, vertex }) => {
            assert_eq!(chain, 0);
            assert_eq!(vertex, 0);
        },
        other => panic!("expected a missing-face defect, got {:?}", other),
    }
}

#[test]
fn test_empty_complex_yields_empty_intervals() {
    let complex = SimplicialComplex::new(vec![], vec![]).unwrap();
    let intervals = complex.persistence_intervals().unwrap();
    assert_eq!(intervals, vec![Vec::<PersistenceInterval>::new()]);
}

#[test]
fn test_persistence_repeats_identically() {
    let simplices = vec![
        Simplex::new(vec![0]),
        Simplex::new(vec![1]),
        Simplex::new(vec![0, 1]),
    ];
    let levels = vec![0u64, 1, 2];
    let complex = SimplicialComplex::new(simplices, levels).unwrap();
    let first = complex.persistence_intervals().unwrap();
    let second = complex.persistence_intervals().unwrap();
    assert_eq!(first, second);
}

#[test]
fn test_index_of_finds_last_position() {
    let complex = SimplicialComplex::new(
        vec![Simplex::new(vec![0]), Simplex::new(vec![1])],
        vec![0u64, 0],
    )
    .unwrap();
    assert_eq!(complex.index_of(&Simplex::new(vec![1])), Some(1));
    assert_eq!(complex.index_of(&Simplex::new(vec![2])), None);
}

#[test]
fn test_boundary_operator_matrix() {
    let simplices = vec![
        BareSimplex { vertices: vec![0] },
        BareSimplex { vertices: vec![1] },
        BareSimplex { vertices: vec![0, 1] },
    ];
    let matrix = compute_boundary_op(&simplices);
    let expected = vec![vec![0, 0, 1], vec![0, 0, 1], vec![0, 0, 0]];
    assert_eq!(matrix, expected);
}
