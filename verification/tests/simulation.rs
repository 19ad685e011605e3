use num::complex::Complex;
use qip::common_circuits::{condition, epr_pair};
use qip::errors::RunError;
use qip::pipeline::{run, run_with_state, QuantumState};
use qip::matrix::MatrixData;
use qip::qubits::{OpBuilder, QubitOp, Register};
use qip::state_ops::{chunk_bounds, pass_plan, row_value, Amplitude, DenseState, Term};

#[derive(Clone, Copy, Debug, PartialEq)]
struct Amp(Complex<f64>);

fn entry(data: &MatrixData, i: usize) -> Complex<f64> {
    match data {
        MatrixData::Complex(entries) => Complex {
            re: f64::from_bits(entries[i].re),
            im: f64::from_bits(entries[i].im),
        },
        MatrixData::Real(entries) => Complex {
            re: f64::from_bits(entries[i]),
            im: 0.0,
        },
    }
}

impl Amplitude for Amp {
    fn combine(data: &MatrixData, terms: &Vec<Term>, input: &Vec<Self>) -> Self {
        let mut sum = Complex { re: 0.0, im: 0.0 };
        for t in terms {
            sum = sum + entry(data, t.entry) * input[t.source].0;
        }
        Amp(sum)
    }
}

const ZERO: Amp = Amp(Complex { re: 0.0, im: 0.0 });
const ONE: Amp = Amp(Complex { re: 1.0, im: 0.0 });

fn amplitudes(s: &DenseState<Amp>) -> Vec<Complex<f64>> {
    s.state().iter().map(|a| a.0).collect()
}

fn close(a: Complex<f64>, re: f64, im: f64) -> bool {
    (a.re - re).abs() < 1e-12 && (a.im - im).abs() < 1e-12
}

#[test]
fn ground_state_of_two_wires() {
    let mut b = OpBuilder::new();
    let q = b.r(2);
    let s = run(&b, q, ZERO, ONE).unwrap();
    assert_eq!(s.n(), 2);
    let a = amplitudes(&s);
    assert_eq!(a.len(), 4);
    assert_eq!(a[0], Complex { re: 1.0, im: 0.0 });
    for i in 1..4 {
        assert_eq!(a[i], Complex { re: 0.0, im: 0.0 });
    }
}

#[test]
fn hadamard_on_one_wire() {
    let mut b = OpBuilder::new();
    let q = b.r(1);
    let q = b.hadamard(q);
    let s = run(&b, q, ZERO, ONE).unwrap();
    let a = amplitudes(&s);
    let h = std::f64::consts::FRAC_1_SQRT_2;
    assert_eq!(a.len(), 2);
    assert!(close(a[0], h, 0.0));
    assert!(close(a[1], h, 0.0));
    assert_eq!(a[0].im, 0.0);
    assert_eq!(a[1].im, 0.0);
}

#[test]
fn not_twice_restores_the_state() {
    let mut b = OpBuilder::new();
    let q = b.r(1);
    let h = b.hadamard(q);
    let before = amplitudes(&run(&b, h, ZERO, ONE).unwrap());
    let once = b.not(h);
    let twice = b.not(once);
    let after = amplitudes(&run(&b, twice, ZERO, ONE).unwrap());
    assert_eq!(before, after);

    let mut b = OpBuilder::new();
    let q = b.r(1);
    let once = b.not(q);
    let flipped = amplitudes(&run(&b, once, ZERO, ONE).unwrap());
    assert_eq!(flipped, vec![Complex { re: 0.0, im: 0.0 }, Complex { re: 1.0, im: 0.0 }]);
    let twice = b.not(once);
    let back = amplitudes(&run(&b, twice, ZERO, ONE).unwrap());
    assert_eq!(back, vec![Complex { re: 1.0, im: 0.0 }, Complex { re: 0.0, im: 0.0 }]);
}

#[test]
fn controlled_not_sets_both_wires() {
    let mut b = OpBuilder::new();
    let control = b.r(1);
    let target = b.r(1);
    let control = b.not(control);
    let (control, target) = condition(&mut b, control, target, "not", MatrixData::not());
    let both = b.merge(vec![control, target]);
    let s = run(&b, both, ZERO, ONE).unwrap();
    let a = amplitudes(&s);
    assert_eq!(a.len(), 4);
    for i in 0..4 {
        let p = a[i].norm_sqr();
        if i == 0b11 {
            assert_eq!(p, 1.0);
        } else {
            assert_eq!(p, 0.0);
        }
    }
}

#[test]
fn controlled_not_without_control_changes_nothing() {
    let mut b = OpBuilder::new();
    let control = b.r(1);
    let target = b.r(1);
    let (control, target) = condition(&mut b, control, target, "not", MatrixData::not());
    let both = b.merge(vec![control, target]);
    let a = amplitudes(&run(&b, both, ZERO, ONE).unwrap());
    assert_eq!(a[0], Complex { re: 1.0, im: 0.0 });
    assert_eq!(a[1].norm_sqr() + a[2].norm_sqr() + a[3].norm_sqr(), 0.0);
}

#[test]
fn epr_pair_of_one_wire_each() {
    let mut b = OpBuilder::new();
    let (ra, rb) = epr_pair(&mut b, 1);
    let both = b.merge(vec![ra, rb]);
    let s = run(&b, both, ZERO, ONE).unwrap();
    let a = amplitudes(&s);
    let h = std::f64::consts::FRAC_1_SQRT_2;
    assert_eq!(a.len(), 4);
    assert!((a[0b00].norm() - h).abs() < 1e-12);
    assert!((a[0b11].norm() - h).abs() < 1e-12);
    assert_eq!(a[0b01].norm(), 0.0);
    assert_eq!(a[0b10].norm(), 0.0);
}

#[test]
fn epr_pair_of_two_wires_each() {
    let mut b = OpBuilder::new();
    let (ra, rb) = epr_pair(&mut b, 2);
    assert_eq!(b.get(ra).indices, vec![0, 1]);
    assert_eq!(b.get(rb).indices, vec![2, 3]);
    let both = b.merge(vec![ra, rb]);
    let s = run(&b, both, ZERO, ONE).unwrap();
    let a = amplitudes(&s);
    let h = std::f64::consts::FRAC_1_SQRT_2;
    assert_eq!(a.len(), 16);
    for i in 0..16 {
        if i == 0b0000 || i == 0b1111 {
            assert!((a[i].norm() - h).abs() < 1e-12);
        } else {
            assert_eq!(a[i].norm(), 0.0);
        }
    }
}

#[test]
fn hadamard_is_broadcast_to_every_wire() {
    let mut b = OpBuilder::new();
    let q = b.r(2);
    let q = b.hadamard(q);
    let a = amplitudes(&run(&b, q, ZERO, ONE).unwrap());
    for i in 0..4 {
        assert!(close(a[i], 0.5, 0.0));
    }
}

#[test]
fn wire_zero_is_the_most_significant_bit() {
    let mut b = OpBuilder::new();
    let first = b.r(1);
    let second = b.r(1);
    let first = b.not(first);
    let both = b.merge(vec![first, second]);
    let a = amplitudes(&run(&b, both, ZERO, ONE).unwrap());
    assert_eq!(a[0b10], Complex { re: 1.0, im: 0.0 });
    assert_eq!(a[0b00], Complex { re: 0.0, im: 0.0 });
}

#[test]
fn pauli_y_and_z() {
    let mut b = OpBuilder::new();
    let q = b.r(1);
    let q = b.y(q);
    let a = amplitudes(&run(&b, q, ZERO, ONE).unwrap());
    assert_eq!(a[0], Complex { re: 0.0, im: 0.0 });
    assert_eq!(a[1], Complex { re: 0.0, im: 1.0 });

    let mut b = OpBuilder::new();
    let q = b.r(1);
    let q = b.x(q);
    let q = b.z(q);
    let a = amplitudes(&run(&b, q, ZERO, ONE).unwrap());
    assert_eq!(a[0], Complex { re: 0.0, im: 0.0 });
    assert_eq!(a[1], Complex { re: -1.0, im: 0.0 });
}

#[test]
fn state_is_sized_by_the_frontier() {
    let mut b = OpBuilder::new();
    let a = b.r(2);
    let c = b.r(3);
    let all = b.merge(vec![a, c]);
    let s = run(&b, all, ZERO, ONE).unwrap();
    assert_eq!(s.n(), 5);
    assert_eq!(s.state().len(), 32);
}

#[test]
fn too_many_wires_give_no_state() {
    let mut b = OpBuilder::new();
    let q = b.r(64);
    assert_eq!(run(&b, q, ZERO, ONE).err(), Some(RunError::TooManyWires));
    assert!(DenseState::new(64, ZERO, ONE).is_none());
}

#[test]
fn an_operation_on_a_wire_outside_the_frontier_fails_the_run() {
    let mut b = OpBuilder::new();
    let _unused = b.r(1);
    let q = b.r(1);
    let h = b.hadamard(q);
    assert_eq!(run(&b, h, ZERO, ONE).err(), Some(RunError::OperationDoesNotFit));
    let short = b.mat("short", q, MatrixData::Real(vec![0, 0, 0]));
    assert_eq!(run(&b, short, ZERO, ONE).err(), Some(RunError::OperationDoesNotFit));
    assert!(run(&b, q, ZERO, ONE).is_ok());
}

#[test]
fn an_operation_that_does_not_fit_is_not_applied() {
    let mut s = DenseState::new(1, ZERO, ONE).unwrap();
    let op = QubitOp {
        name: "not".to_string(),
        controls: vec![],
        indices: vec![3],
        data: MatrixData::not(),
    };
    s.apply_op(&op);
    assert_eq!(amplitudes(&s), vec![Complex { re: 1.0, im: 0.0 }, Complex { re: 0.0, im: 0.0 }]);
    let op = QubitOp {
        name: "short".to_string(),
        controls: vec![],
        indices: vec![0],
        data: MatrixData::Real(vec![0, 0, 0]),
    };
    s.apply_op(&op);
    assert_eq!(amplitudes(&s), vec![Complex { re: 1.0, im: 0.0 }, Complex { re: 0.0, im: 0.0 }]);
    let op = QubitOp {
        name: "not".to_string(),
        controls: vec![],
        indices: vec![0],
        data: MatrixData::not(),
    };
    s.apply_op(&op);
    assert_eq!(amplitudes(&s), vec![Complex { re: 0.0, im: 0.0 }, Complex { re: 1.0, im: 0.0 }]);
}

struct Recorder {
    wires: usize,
    seen: Vec<(String, Vec<u64>)>,
}

impl QuantumState for Recorder {
    fn apply_op(&mut self, op: &QubitOp) {
        self.seen.push((op.name.clone(), op.indices.clone()));
    }
}

#[test]
fn run_with_state_applies_the_operations_in_order() {
    let mut b = OpBuilder::new();
    let a = b.r(1);
    let c = b.r(2);
    let a = b.hadamard(a);
    let c = b.not(c);
    let a = b.not(a);
    let all = b.merge(vec![a, c]);
    let s = run_with_state(&b, all, |frontier: Vec<&Register>| Recorder {
        wires: frontier.iter().map(|r| r.indices.len()).sum(),
        seen: vec![],
    });
    assert_eq!(s.wires, 3);
    assert_eq!(
        s.seen,
        vec![
            ("hadamard".to_string(), vec![0]),
            ("not".to_string(), vec![1, 2]),
            ("not".to_string(), vec![0]),
        ]
    );
}

#[test]
fn a_sweep_made_in_parts_gives_the_same_amplitudes() {
    let mut b = OpBuilder::new();
    let a = b.r(2);
    let c = b.r(1);
    let a = b.hadamard(a);
    let (c, a) = condition(&mut b, c, a, "y", MatrixData::y());
    let c = b.hadamard(c);
    let (a, c) = condition(&mut b, a, c, "not", MatrixData::not());
    let all = b.merge(vec![a, c]);
    let whole = amplitudes(&run(&b, all, ZERO, ONE).unwrap());

    let (_, ops) = qip::pipeline::get_opfns_and_frontier(&b, all);
    for parts in 1..6 {
        let mut state = vec![ZERO; 8];
        state[0] = ONE;
        let mut arena = vec![ZERO; 8];
        for op in &ops {
            for wires in pass_plan(op) {
                for i in 0..parts {
                    let (start, end) = chunk_bounds(8, parts, i);
                    let mut terms = vec![];
                    for row in start..end {
                        arena[row] =
                            row_value(3, &op.controls, &wires, &op.data, &state, row, &mut terms);
                    }
                }
                std::mem::swap(&mut state, &mut arena);
            }
        }
        let by_parts: Vec<Complex<f64>> = state.iter().map(|a| a.0).collect();
        assert_eq!(by_parts, whole);
    }
}
