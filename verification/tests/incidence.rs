use circuit_lab::incidence::{can_orient, undirected_to_directed_matrix, IncidenceMatrix};

fn matrix(arr: Vec<i8>, rows: usize, columns: usize) -> IncidenceMatrix {
    IncidenceMatrix::from_entries(arr, rows, columns).expect("a valid incidence matrix")
}

#[test]
fn test_undir_to_directed() {
    let mut m = matrix(
        vec![
            1, 1, 0, 0, //
            1, 0, 0, 1, //
            0, 1, 1, 0, //
            0, 0, 1, 1, //
        ],
        4,
        4,
    );
    undirected_to_directed_matrix(&mut m);
    let expected: Vec<i8> = vec![
        1, -1, 0, 0, //
        -1, 0, 0, 1, //
        0, 1, -1, 0, //
        0, 0, 1, -1, //
    ];
    assert_eq!(m.arr, expected);
    assert_eq!((m.rows, m.columns), (4, 4));

    let mut m = matrix(
        vec![
            1, 0, 0, 0, 0, 0, 0, 0, 1, //
            1, 1, 0, 1, 0, 0, 0, 0, 0, //
            0, 1, 1, 0, 0, 0, 0, 0, 0, //
            0, 0, 1, 0, 1, 0, 0, 0, 0, //
            0, 0, 0, 1, 1, 1, 0, 0, 0, //
            0, 0, 0, 0, 0, 1, 1, 0, 0, //
            0, 0, 0, 0, 0, 0, 1, 1, 0, //
            0, 0, 0, 0, 0, 0, 0, 1, 1, //
        ],
        8,
        9,
    );
    undirected_to_directed_matrix(&mut m);
    let expected: Vec<i8> = vec![
        1, 0, 0, 0, 0, 0, 0, 0, -1, //
        -1, 1, 0, 1, 0, 0, 0, 0, 0, //
        0, -1, 1, 0, 0, 0, 0, 0, 0, //
        0, 0, -1, 0, 1, 0, 0, 0, 0, //
        0, 0, 0, -1, -1, 1, 0, 0, 0, //
        0, 0, 0, 0, 0, -1, 1, 0, 0, //
        0, 0, 0, 0, 0, 0, -1, 1, 0, //
        0, 0, 0, 0, 0, 0, 0, -1, 1, //
    ];
    assert_eq!(m.arr, expected);

    let mut m = matrix(
        vec![
            1, 0, 0, 0, 0, 0, 0, 1, 0, //
            1, 1, 0, 1, 0, 0, 0, 0, 0, //
            0, 1, 1, 0, 0, 0, 0, 0, 0, //
            0, 0, 1, 0, 0, 0, 0, 0, 1, //
            0, 0, 0, 1, 1, 0, 0, 0, 1, //
            0, 0, 0, 0, 1, 1, 0, 0, 0, //
            0, 0, 0, 0, 0, 1, 1, 0, 0, //
            0, 0, 0, 0, 0, 0, 1, 1, 0, //
        ],
        8,
        9,
    );
    undirected_to_directed_matrix(&mut m);
    let expected: Vec<i8> = vec![
        1, 0, 0, 0, 0, 0, 0, -1, 0, //
        -1, 1, 0, 1, 0, 0, 0, 0, 0, //
        0, -1, 1, 0, 0, 0, 0, 0, 0, //
        0, 0, -1, 0, 0, 0, 0, 0, 1, //
        0, 0, 0, -1, 1, 0, 0, 0, -1, //
        0, 0, 0, 0, -1, 1, 0, 0, 0, //
        0, 0, 0, 0, 0, -1, 1, 0, 0, //
        0, 0, 0, 0, 0, 0, -1, 1, 0, //
    ];
    assert_eq!(m.arr, expected);
}

#[test]
fn orientation_keeps_every_magnitude() {
    let input: Vec<i8> = vec![1, 1, 0, 0, 1, 0, 0, 1, 0, 1, 1, 0, 0, 0, 1, 1];
    let mut m = matrix(input.clone(), 4, 4);
    undirected_to_directed_matrix(&mut m);
    for (a, b) in m.arr.iter().zip(input.iter()) {
        assert_eq!(a.abs(), b.abs());
    }
}

#[test]
fn from_entries_checks_shape_and_signs() {
    assert!(IncidenceMatrix::from_entries(vec![1, 0, -1, 0], 2, 2).is_some());
    assert!(IncidenceMatrix::from_entries(vec![1, 0, -1], 2, 2).is_none());
    assert!(IncidenceMatrix::from_entries(vec![1, 0, 2, 0], 2, 2).is_none());
    assert!(IncidenceMatrix::from_entries(vec![], usize::MAX, 2).is_none());
}

#[test]
fn a_zero_row_cannot_be_oriented() {
    // The correction of a row with no entries notes no other row.
    let m = matrix(vec![0, 0, 1, 1], 2, 2);
    assert!(!can_orient(&m));
    let m = matrix(vec![1, 1, 0, 0, 1, 0, 0, 1, 0, 1, 1, 0, 0, 0, 1, 1], 4, 4);
    assert!(can_orient(&m));
}
