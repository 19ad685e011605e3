use qip::common_circuits::{cmat, cnot, condition, crealmat, cswap, cx, cy, cz, epr_pair};
use qip::errors::CircuitError;
use qip::pipeline::run;
use qip::matrix::{
    ComplexBits, MatrixData, FRAC_1_SQRT_2_BITS, MINUS_FRAC_1_SQRT_2_BITS, MINUS_ONE_BITS, ONE_BITS,
    ZERO_BITS,
};
use qip::qubits::{copy_wires, OpBuilder, Parent, QubitOp, Register};
use qip::state_ops::{Amplitude, Term};

#[derive(Clone, Copy, Debug, PartialEq)]
struct Real(f64);

impl Amplitude for Real {
    fn combine(data: &MatrixData, terms: &Vec<Term>, input: &Vec<Self>) -> Self {
        let mut sum = 0.0;
        for t in terms {
            let e = match data {
                MatrixData::Real(entries) => f64::from_bits(entries[t.entry]),
                MatrixData::Complex(entries) => f64::from_bits(entries[t.entry].re),
            };
            sum += e * input[t.source].0;
        }
        Real(sum)
    }
}

fn amplitudes(b: &OpBuilder, q: usize) -> Vec<f64> {
    run(b, q, Real(0.0), Real(1.0)).unwrap().state().iter().map(|a| a.0).collect()
}

#[test]
fn bit_patterns_of_the_constants() {
    assert_eq!(f64::from_bits(ZERO_BITS), 0.0);
    assert_eq!(f64::from_bits(ONE_BITS), 1.0);
    assert_eq!(f64::from_bits(MINUS_ONE_BITS), -1.0);
    assert_eq!(f64::from_bits(FRAC_1_SQRT_2_BITS), std::f64::consts::FRAC_1_SQRT_2);
    assert_eq!(f64::from_bits(MINUS_FRAC_1_SQRT_2_BITS), -std::f64::consts::FRAC_1_SQRT_2);
}

#[test]
fn gate_matrices() {
    assert_eq!(MatrixData::not(), MatrixData::Real(vec![ZERO_BITS, ONE_BITS, ONE_BITS, ZERO_BITS]));
    assert_eq!(
        MatrixData::z(),
        MatrixData::Real(vec![ONE_BITS, ZERO_BITS, ZERO_BITS, MINUS_ONE_BITS])
    );
    assert_eq!(
        MatrixData::hadamard(),
        MatrixData::Real(vec![
            FRAC_1_SQRT_2_BITS,
            FRAC_1_SQRT_2_BITS,
            FRAC_1_SQRT_2_BITS,
            MINUS_FRAC_1_SQRT_2_BITS
        ])
    );
    assert_eq!(
        MatrixData::y(),
        MatrixData::Complex(vec![
            ComplexBits { re: 0, im: 0 },
            ComplexBits { re: 0, im: MINUS_ONE_BITS },
            ComplexBits { re: 0, im: ONE_BITS },
            ComplexBits { re: 0, im: 0 },
        ])
    );
    assert_eq!(MatrixData::real_2x2(1, 2, 3, 4), MatrixData::Real(vec![1, 2, 3, 4]));
    assert_eq!(MatrixData::y().len(), 4);
    assert_eq!(MatrixData::Real(vec![]).len(), 0);
}

#[test]
fn swap_matrices() {
    assert_eq!(MatrixData::swap(0), Some(MatrixData::Real(vec![ONE_BITS])));
    let one = MatrixData::swap(1).unwrap();
    let mut want = vec![ZERO_BITS; 16];
    want[0 * 4 + 0] = ONE_BITS;
    want[1 * 4 + 2] = ONE_BITS;
    want[2 * 4 + 1] = ONE_BITS;
    want[3 * 4 + 3] = ONE_BITS;
    assert_eq!(one, MatrixData::Real(want));
    let two = match MatrixData::swap(2).unwrap() {
        MatrixData::Real(entries) => entries,
        MatrixData::Complex(_) => panic!("a real matrix"),
    };
    assert_eq!(two.len(), 256);
    for row in 0..16 {
        for col in 0..16 {
            let exchanged = (row % 4) * 4 + row / 4;
            assert_eq!(two[row * 16 + col], if col == exchanged { ONE_BITS } else { ZERO_BITS });
        }
    }
    assert_eq!(MatrixData::swap(16), None);
    assert_eq!(MatrixData::swap(usize::MAX), None);
}

#[test]
fn registers_get_fresh_wires() {
    let mut b = OpBuilder::new();
    assert_eq!(b.len(), 0);
    assert_eq!(b.wires(), 0);
    let a = b.r(2);
    let c = b.r(0);
    let d = b.r(3);
    assert_eq!((a, c, d), (0, 1, 2));
    assert_eq!(b.len(), 3);
    assert_eq!(b.wires(), 5);
    assert_eq!(*b.get(a), Register { id: 0, indices: vec![0, 1], parent: None });
    assert_eq!(*b.get(c), Register { id: 1, indices: vec![], parent: None });
    assert_eq!(*b.get(d), Register { id: 2, indices: vec![2, 3, 4], parent: None });
    assert_eq!(copy_wires(&b.get(d).indices), vec![2, 3, 4]);
}

#[test]
fn merge_and_split() {
    let mut b = OpBuilder::new();
    let a = b.r(2);
    let c = b.r(1);
    let m = b.merge(vec![c, a]);
    assert_eq!(
        *b.get(m),
        Register { id: 2, indices: vec![2, 0, 1], parent: Some(Parent::Owned(vec![c, a], None)) }
    );
    let parts = b.split_all(m);
    assert_eq!(parts, vec![3, 4, 5]);
    assert_eq!(*b.get(3), Register { id: 3, indices: vec![2], parent: Some(Parent::Shared(m)) });
    assert_eq!(*b.get(4), Register { id: 4, indices: vec![0], parent: Some(Parent::Shared(m)) });
    assert_eq!(*b.get(5), Register { id: 5, indices: vec![1], parent: Some(Parent::Shared(m)) });
    let (first, second) = b.split_at(m, 1);
    assert_eq!(*b.get(first), Register { id: 6, indices: vec![2], parent: Some(Parent::Shared(m)) });
    assert_eq!(
        *b.get(second),
        Register { id: 7, indices: vec![0, 1], parent: Some(Parent::Shared(m)) }
    );
    let (all, none) = b.split_at(m, 3);
    assert_eq!(b.get(all).indices, vec![2, 0, 1]);
    assert_eq!(b.get(none).indices, Vec::<u64>::new());
    let empty = b.merge(vec![]);
    assert_eq!(
        *b.get(empty),
        Register { id: 10, indices: vec![], parent: Some(Parent::Owned(vec![], None)) }
    );
    assert_eq!(b.wires(), 3);
}

#[test]
fn a_matrix_is_carried_by_a_new_register() {
    let mut b = OpBuilder::new();
    let a = b.r(2);
    let h = b.hadamard(a);
    assert_eq!(
        *b.get(h),
        Register {
            id: 1,
            indices: vec![0, 1],
            parent: Some(Parent::Owned(
                vec![a],
                Some(QubitOp {
                    name: "hadamard".to_string(),
                    controls: vec![],
                    indices: vec![0, 1],
                    data: MatrixData::hadamard()
                })
            )),
        }
    );
    let m = b.mat("seven", h, MatrixData::Real(vec![7]));
    assert_eq!(m, 2);
    assert_eq!(
        b.get(m).parent,
        Some(Parent::Owned(
            vec![h],
            Some(QubitOp {
                name: "seven".to_string(),
                controls: vec![],
                indices: vec![0, 1],
                data: MatrixData::Real(vec![7])
            })
        ))
    );
}

#[test]
fn a_condition_adds_three_registers() {
    let mut b = OpBuilder::new();
    let c = b.r(2);
    let t = b.r(1);
    let mut context = b.with_condition(c);
    let t1 = context.mat(&mut b, "z", t, MatrixData::z());
    let c1 = context.release_register();
    assert_eq!((c1, t1), (3, 4));
    assert_eq!(
        *b.get(2),
        Register {
            id: 2,
            indices: vec![0, 1, 2],
            parent: Some(Parent::Owned(
                vec![c, t],
                Some(QubitOp {
                    name: "C(z)".to_string(),
                    controls: vec![0, 1],
                    indices: vec![2],
                    data: MatrixData::z()
                })
            )),
        }
    );
    assert_eq!(*b.get(c1), Register { id: 3, indices: vec![0, 1], parent: Some(Parent::Shared(2)) });
    assert_eq!(*b.get(t1), Register { id: 4, indices: vec![2], parent: Some(Parent::Shared(2)) });
    assert_eq!(condition(&mut b, c1, t1, "flip", MatrixData::not()), (6, 7));
    assert_eq!(cx(&mut b, 6, 7), (9, 10));
    assert_eq!(cy(&mut b, 9, 10), (12, 13));
    assert_eq!(cz(&mut b, 12, 13), (15, 16));
    assert_eq!(cnot(&mut b, 15, 16), (18, 19));
    assert_eq!(b.len(), 20);
    let op = |id: usize| match &b.get(id).parent {
        Some(Parent::Owned(_, Some(op))) => (op.name.clone(), op.data.clone()),
        _ => panic!("an operation"),
    };
    assert_eq!(op(5), ("C(flip)".to_string(), MatrixData::not()));
    assert_eq!(op(8), ("C(x)".to_string(), MatrixData::not()));
    assert_eq!(op(11), ("C(y)".to_string(), MatrixData::y()));
    assert_eq!(op(14), ("C(z)".to_string(), MatrixData::z()));
    assert_eq!(op(17), ("C(not)".to_string(), MatrixData::not()));
}

#[test]
fn controlled_matrices_are_checked_for_size() {
    let mut b = OpBuilder::new();
    let c = b.r(1);
    let t = b.r(2);
    let bits = |n: usize| vec![ComplexBits { re: ONE_BITS, im: ZERO_BITS }; n];
    assert_eq!(cmat(&mut b, "m", c, t, bits(3)), Err(CircuitError::MatrixSize));
    assert_eq!(cmat(&mut b, "m", c, t, bits(8)), Err(CircuitError::MatrixSize));
    assert_eq!(crealmat(&mut b, "m", c, t, vec![0; 15]), Err(CircuitError::MatrixSize));
    assert_eq!(b.len(), 2);
    assert_eq!(cmat(&mut b, "m", c, t, bits(4)), Ok((3, 4)));
    assert_eq!(crealmat(&mut b, "m", 3, 4, vec![0; 16]), Ok((6, 7)));
    assert_eq!(b.len(), 8);
    let none = b.r(0);
    assert_eq!(crealmat(&mut b, "m", 6, none, vec![0; 4]), Err(CircuitError::MatrixSize));
    assert_eq!(crealmat(&mut b, "phase", 6, none, vec![ONE_BITS]), Ok((10, 11)));
    match &b.get(9).parent {
        Some(Parent::Owned(_, Some(op))) => assert_eq!(op.name, "C(phase)"),
        _ => panic!("an operation"),
    }
}

#[test]
fn epr_pair_table() {
    let mut b = OpBuilder::new();
    let _ = b.r(3);
    let (ra, rb) = epr_pair(&mut b, 2);
    assert_eq!((ra, rb), (10, 11));
    assert_eq!(b.len(), 12);
    assert_eq!(b.wires(), 7);
    let shared = |id, indices: Vec<u64>, of| Register {
        id,
        indices,
        parent: Some(Parent::Shared(of)),
    };
    assert_eq!(*b.get(1), Register { id: 1, indices: vec![3], parent: None });
    assert_eq!(*b.get(2), Register { id: 2, indices: vec![4, 5, 6], parent: None });
    assert_eq!(
        *b.get(3),
        Register {
            id: 3,
            indices: vec![3],
            parent: Some(Parent::Owned(
                vec![1],
                Some(QubitOp {
                    name: "hadamard".to_string(),
                    controls: vec![],
                    indices: vec![3],
                    data: MatrixData::hadamard()
                })
            )),
        }
    );
    assert_eq!(
        *b.get(4),
        Register {
            id: 4,
            indices: vec![3, 4, 5, 6],
            parent: Some(Parent::Owned(
                vec![3, 2],
                Some(QubitOp {
                    name: "C(not)".to_string(),
                    controls: vec![3],
                    indices: vec![4, 5, 6],
                    data: MatrixData::not()
                })
            )),
        }
    );
    assert_eq!(*b.get(5), shared(5, vec![3], 4));
    assert_eq!(*b.get(6), shared(6, vec![4, 5, 6], 4));
    assert_eq!(*b.get(7), shared(7, vec![4], 6));
    assert_eq!(*b.get(8), shared(8, vec![5], 6));
    assert_eq!(*b.get(9), shared(9, vec![6], 6));
    assert_eq!(
        *b.get(ra),
        Register { id: 10, indices: vec![3, 4], parent: Some(Parent::Owned(vec![5, 7], None)) }
    );
    assert_eq!(
        *b.get(rb),
        Register { id: 11, indices: vec![5, 6], parent: Some(Parent::Owned(vec![8, 9], None)) }
    );
}

#[test]
fn swap_exchanges_two_registers() {
    let mut b = OpBuilder::new();
    let a = b.r(1);
    let c = b.r(1);
    let a = b.not(a);
    let (a, c) = b.swap(a, c).unwrap();
    assert_eq!(b.get(a).indices, vec![0]);
    assert_eq!(b.get(c).indices, vec![1]);
    let all = b.merge(vec![a, c]);
    assert_eq!(amplitudes(&b, all), vec![0.0, 1.0, 0.0, 0.0]);

    let mut b = OpBuilder::new();
    let a = b.r(1);
    let c = b.r(2);
    assert_eq!(b.swap(a, c), Err(CircuitError::RegisterSizes));
    assert_eq!(b.len(), 2);
    let mut b = OpBuilder::new();
    let a = b.r(16);
    let c = b.r(16);
    assert_eq!(b.swap(a, c), Err(CircuitError::TooManyWires));
    assert_eq!(b.len(), 2);
}

#[test]
fn controlled_swap() {
    // control set: the registers are exchanged
    let mut b = OpBuilder::new();
    let control = b.r(1);
    let a = b.r(1);
    let c = b.r(1);
    let control = b.not(control);
    let a = b.not(a);
    let (control, a, c) = cswap(&mut b, control, a, c).unwrap();
    assert_eq!((control, a, c), (7, 9, 10));
    let all = b.merge(vec![control, a, c]);
    let mut want = vec![0.0; 8];
    want[0b101] = 1.0;
    assert_eq!(amplitudes(&b, all), want);

    // control not set: nothing happens
    let mut b = OpBuilder::new();
    let control = b.r(1);
    let a = b.r(1);
    let c = b.r(1);
    let a = b.not(a);
    let (control, a, c) = cswap(&mut b, control, a, c).unwrap();
    let all = b.merge(vec![control, a, c]);
    let mut want = vec![0.0; 8];
    want[0b010] = 1.0;
    assert_eq!(amplitudes(&b, all), want);

    let mut b = OpBuilder::new();
    let control = b.r(1);
    let a = b.r(1);
    let c = b.r(2);
    assert_eq!(cswap(&mut b, control, a, c), Err(CircuitError::RegisterSizes));
    assert_eq!(b.len(), 3);
}
