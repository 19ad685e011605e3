use qip::common_circuits::cnot;
use qip::matrix::{ComplexBits, MatrixData, MINUS_ONE_BITS, ONE_BITS};
use qip::pipeline::run;
use qip::qubits::{OpBuilder, QubitOp};
use qip::state_ops::{
    all_set, amplitude_count, check_wires, chunk_bounds, fill_terms, full_to_sub, get_bit,
    op_fits_state, pass_plan, row_value, set_bit, sub_to_full, Amplitude, DenseState, Term,
    PARALLEL_THRESHOLD,
};

#[derive(Clone, Copy, Debug, PartialEq)]
struct Count(i64);

impl Amplitude for Count {
    fn combine(data: &MatrixData, terms: &Vec<Term>, input: &Vec<Self>) -> Self {
        let mut sum = 0;
        for t in terms {
            let e = match data {
                MatrixData::Real(entries) => entries[t.entry] as i64,
                MatrixData::Complex(entries) => entries[t.entry].re as i64,
            };
            sum += e * input[t.source].0;
        }
        Count(sum)
    }
}

#[test]
fn bits_are_read_and_set() {
    assert!(get_bit(0b100, 2));
    assert!(!get_bit(0b100, 1));
    assert!(get_bit(1 << 63, 63));
    assert_eq!(set_bit(0b100, 0, true), 0b101);
    assert_eq!(set_bit(0b101, 2, false), 0b001);
    assert_eq!(set_bit(0b101, 2, true), 0b101);
    assert_eq!(set_bit(0, 63, true), 1 << 63);
}

#[test]
fn sub_index_reads_the_listed_wires() {
    // four wires; wire 0 is bit 3
    assert_eq!(full_to_sub(4, &vec![0], 0b1000), 1);
    assert_eq!(full_to_sub(4, &vec![3], 0b1000), 0);
    assert_eq!(full_to_sub(4, &vec![0, 3], 0b1001), 0b11);
    assert_eq!(full_to_sub(4, &vec![3, 0], 0b1000), 0b01);
    assert_eq!(full_to_sub(4, &vec![1, 2], 0b0110), 0b11);
    assert_eq!(full_to_sub(4, &vec![1, 2], 0b0100), 0b10);
    assert_eq!(full_to_sub(4, &vec![], 0b1111), 0);
}

#[test]
fn sub_index_is_placed_on_the_listed_wires() {
    assert_eq!(sub_to_full(4, &vec![0], 1, 0b0000), 0b1000);
    assert_eq!(sub_to_full(4, &vec![0], 0, 0b1111), 0b0111);
    assert_eq!(sub_to_full(4, &vec![1, 2], 0b10, 0b1001), 0b1101);
    assert_eq!(sub_to_full(4, &vec![2, 1], 0b10, 0b1001), 0b1011);
    assert_eq!(sub_to_full(4, &vec![], 0, 0b1010), 0b1010);
    for row in 0..16 {
        let sub = full_to_sub(4, &vec![3, 1], row);
        assert_eq!(sub_to_full(4, &vec![3, 1], sub, row), row);
    }
}

#[test]
fn controls_are_all_set_or_not() {
    assert!(all_set(3, &vec![], 0));
    assert!(all_set(3, &vec![0, 2], 0b101));
    assert!(!all_set(3, &vec![0, 2], 0b100));
    assert!(!all_set(3, &vec![1], 0b101));
}

#[test]
fn terms_of_a_row() {
    let mut terms = vec![Term { entry: 9, source: 9 }];
    // three wires, matrix on wire 1 (bit 1), row 0b110: matrix row 1
    fill_terms(&mut terms, 3, &vec![1], 0b110);
    assert_eq!(
        terms,
        vec![Term { entry: 2, source: 0b100 }, Term { entry: 3, source: 0b110 }]
    );
    fill_terms(&mut terms, 3, &vec![0, 2], 0b001);
    assert_eq!(
        terms,
        vec![
            Term { entry: 4, source: 0b000 },
            Term { entry: 5, source: 0b001 },
            Term { entry: 6, source: 0b100 },
            Term { entry: 7, source: 0b101 },
        ]
    );
    fill_terms(&mut terms, 3, &vec![], 0b011);
    assert_eq!(terms, vec![Term { entry: 0, source: 0b011 }]);
}

#[test]
fn a_row_under_control() {
    let input = vec![Count(1), Count(2), Count(3), Count(4)];
    let data = MatrixData::Real(vec![0, 1, 1, 0]);
    let mut terms = vec![];
    // control on wire 0, matrix on wire 1
    let out: Vec<Count> = (0..4)
        .map(|row| row_value(2, &vec![0], &vec![1], &data, &input, row, &mut terms))
        .collect();
    assert_eq!(out, vec![Count(1), Count(2), Count(4), Count(3)]);
}

#[test]
fn amplitude_counts() {
    assert_eq!(amplitude_count(0), Some(1));
    assert_eq!(amplitude_count(2), Some(4));
    assert_eq!(amplitude_count(10), Some(1024));
    assert_eq!(amplitude_count(64), None);
    assert_eq!(amplitude_count(u64::MAX), None);
}

#[test]
fn ground_state_and_parts() {
    let s = DenseState::new(2, Count(0), Count(1)).unwrap();
    assert_eq!(s.n(), 2);
    assert!(s.is_wf());
    assert_eq!(s.state(), &vec![Count(1), Count(0), Count(0), Count(0)]);
    let (n, state, arena) = s.into_parts();
    assert_eq!(n, 2);
    assert_eq!(arena.len(), 4);
    assert!(DenseState::from_parts(2, state.clone(), vec![Count(0); 3]).is_none());
    assert!(DenseState::from_parts(3, state.clone(), arena.clone()).is_none());
    assert!(DenseState::from_parts(64, state.clone(), arena.clone()).is_none());
    let back = DenseState::from_parts(2, state, arena).unwrap();
    assert_eq!(back.state(), &vec![Count(1), Count(0), Count(0), Count(0)]);
    let s = DenseState::new(0, Count(0), Count(1)).unwrap();
    assert_eq!(s.state(), &vec![Count(1)]);
}

#[test]
fn applying_a_matrix_sweeps_every_row() {
    let mut s = DenseState::from_parts(
        2,
        vec![Count(1), Count(2), Count(3), Count(4)],
        vec![Count(0); 4],
    )
    .unwrap();
    // exchange the states of wire 1, the low bit
    let op = QubitOp {
        name: String::new(),
        controls: vec![],
        indices: vec![1],
        data: MatrixData::Real(vec![0, 1, 1, 0]),
    };
    s.apply(&op);
    assert_eq!(s.state(), &vec![Count(2), Count(1), Count(4), Count(3)]);
    // the same matrix on both wires, one after the other
    let op = QubitOp {
        name: String::new(),
        controls: vec![],
        indices: vec![0, 1],
        data: MatrixData::Real(vec![0, 1, 1, 0]),
    };
    s.apply(&op);
    assert_eq!(s.state(), &vec![Count(3), Count(4), Count(1), Count(2)]);
    // a matrix on two wires: 2 on the diagonal
    let mut diag = vec![0u64; 16];
    for i in 0..4 {
        diag[i * 4 + i] = 2;
    }
    let op = QubitOp {
        name: String::new(),
        controls: vec![],
        indices: vec![0, 1],
        data: MatrixData::Real(diag),
    };
    s.apply(&op);
    assert_eq!(s.state(), &vec![Count(6), Count(8), Count(2), Count(4)]);
}

#[test]
fn which_operations_fit() {
    let not = |controls: Vec<u64>, indices: Vec<u64>| QubitOp {
        name: String::new(),
        controls,
        indices,
        data: MatrixData::Real(vec![0, 1, 1, 0]),
    };
    assert!(op_fits_state(2, &not(vec![], vec![0])));
    assert!(op_fits_state(2, &not(vec![1], vec![0])));
    assert!(op_fits_state(2, &not(vec![], vec![0, 1])));
    assert!(!op_fits_state(2, &not(vec![], vec![2])));
    assert!(!op_fits_state(2, &not(vec![2], vec![0])));
    assert!(!op_fits_state(2, &not(vec![], vec![])));
    assert!(!op_fits_state(64, &not(vec![], vec![0])));
    let sized = |k: usize, entries: usize| QubitOp {
        name: String::new(),
        controls: vec![],
        indices: (0..k as u64).collect(),
        data: MatrixData::Real(vec![0; entries]),
    };
    assert!(op_fits_state(3, &sized(0, 1)));
    assert!(op_fits_state(3, &sized(2, 16)));
    assert!(op_fits_state(3, &sized(3, 64)));
    assert!(!op_fits_state(3, &sized(2, 15)));
    assert!(!op_fits_state(3, &sized(1, 2)));
    assert!(!op_fits_state(40, &sized(32, 8)));
    assert!(check_wires(3, &vec![0, 1, 2]));
    assert!(!check_wires(3, &vec![0, 3]));
}

#[test]
fn sweeps_of_an_operation() {
    let op = QubitOp {
        name: String::new(),
        controls: vec![5],
        indices: vec![2, 0, 1],
        data: MatrixData::Real(vec![0, 1, 1, 0]),
    };
    assert_eq!(pass_plan(&op), vec![vec![2], vec![0], vec![1]]);
    let op = QubitOp {
        name: String::new(),
        controls: vec![],
        indices: vec![2, 0],
        data: MatrixData::Real(vec![0; 16]),
    };
    assert_eq!(pass_plan(&op), vec![vec![2, 0]]);
    let op = QubitOp {
        name: String::new(),
        controls: vec![],
        indices: vec![3],
        data: MatrixData::Real(vec![0; 4]),
    };
    assert_eq!(pass_plan(&op), vec![vec![3]]);
}

#[test]
fn rows_are_dealt_out_without_gap_or_overlap() {
    assert_eq!(chunk_bounds(10, 3, 0), (0, 4));
    assert_eq!(chunk_bounds(10, 3, 1), (4, 8));
    assert_eq!(chunk_bounds(10, 3, 2), (8, 10));
    assert_eq!(chunk_bounds(8, 4, 3), (6, 8));
    assert_eq!(chunk_bounds(2, 4, 1), (1, 2));
    assert_eq!(chunk_bounds(2, 4, 2), (2, 2));
    assert_eq!(chunk_bounds(2, 4, 3), (2, 2));
    assert_eq!(chunk_bounds(0, 2, 1), (0, 0));
    assert_eq!(chunk_bounds(usize::MAX, usize::MAX, usize::MAX - 1), (usize::MAX - 1, usize::MAX));
    assert_eq!(chunk_bounds(usize::MAX, 2, 1), (usize::MAX / 2 + 1, usize::MAX));
    for parts in 1..9 {
        let mut next = 0;
        for i in 0..parts {
            let (start, end) = chunk_bounds(37, parts, i);
            assert_eq!(start, next);
            next = end;
        }
        assert_eq!(next, 37);
    }
    assert_eq!(PARALLEL_THRESHOLD, 20);
}

#[test]
fn support_of_a_state() {
    let mut b = OpBuilder::new();
    let control = b.r(1);
    let target = b.r(1);
    let control = b.not(control);
    let (control, target) = cnot(&mut b, control, target);
    let both = b.merge(vec![control, target]);
    let s = run(&b, both, false, true).unwrap();
    assert_eq!(s.state(), &vec![false, false, false, true]);

    let mut b = OpBuilder::new();
    let q = b.r(2);
    let h = b.hadamard(q);
    assert_eq!(run(&b, q, false, true).unwrap().state(), &vec![true, false, false, false]);
    assert_eq!(run(&b, h, false, true).unwrap().state(), &vec![true, true, true, true]);
}

#[test]
fn entries_other_than_zero() {
    let real = MatrixData::Real(vec![0, 1 << 63, ONE_BITS, MINUS_ONE_BITS, 1]);
    assert!(!real.is_nonzero(0));
    assert!(!real.is_nonzero(1));
    assert!(real.is_nonzero(2));
    assert!(real.is_nonzero(3));
    assert!(real.is_nonzero(4));
    let complex = MatrixData::Complex(vec![
        ComplexBits { re: 0, im: 1 << 63 },
        ComplexBits { re: 0, im: ONE_BITS },
        ComplexBits { re: ONE_BITS, im: 0 },
    ]);
    assert!(!complex.is_nonzero(0));
    assert!(complex.is_nonzero(1));
    assert!(complex.is_nonzero(2));
    assert!(bool::combine(
        &real,
        &vec![Term { entry: 0, source: 1 }, Term { entry: 2, source: 1 }],
        &vec![false, true]
    ));
    assert!(!bool::combine(
        &real,
        &vec![Term { entry: 0, source: 1 }, Term { entry: 2, source: 0 }],
        &vec![false, true]
    ));
    assert!(!bool::combine(&real, &vec![], &vec![true]));
}
