use qip::common_circuits::condition;
use qip::pipeline::{frontier_wires, get_opfns_and_frontier, pop_highest, qubit_in_heap};
use qip::matrix::MatrixData;
use qip::qubits::{OpBuilder, Parent};

#[test]
fn frontier_comes_highest_identifier_first() {
    let mut b = OpBuilder::new();
    let a = b.r(1);
    let c = b.r(2);
    let d = b.r(1);
    let all = b.merge(vec![a, c, d]);
    let (frontier, ops) = get_opfns_and_frontier(&b, all);
    let ids: Vec<usize> = frontier.iter().map(|r| r.id).collect();
    assert_eq!(ids, vec![d, c, a]);
    assert!(ops.is_empty());
    assert_eq!(frontier_wires(&frontier), Some(4));
}

#[test]
fn operations_come_oldest_first() {
    let mut b = OpBuilder::new();
    let a = b.r(1);
    let c = b.r(1);
    let a1 = b.hadamard(a);
    let c1 = b.not(c);
    let a2 = b.z(a1);
    let all = b.merge(vec![a2, c1]);
    let (frontier, ops) = get_opfns_and_frontier(&b, all);
    assert_eq!(frontier.len(), 2);
    assert_eq!(ops.len(), 3);
    assert_eq!(ops[0].name, "hadamard");
    assert_eq!(ops[0].data, MatrixData::hadamard());
    assert_eq!(ops[0].indices, vec![0]);
    assert_eq!(ops[1].name, "not");
    assert_eq!(ops[1].data, MatrixData::not());
    assert_eq!(ops[1].indices, vec![1]);
    assert_eq!(ops[2].name, "z");
    assert_eq!(ops[2].data, MatrixData::z());
    assert_eq!(ops[2].indices, vec![0]);
}

#[test]
fn only_what_the_terminal_derives_from_is_linearized() {
    let mut b = OpBuilder::new();
    let a = b.r(1);
    let c = b.r(1);
    let a1 = b.hadamard(a);
    let _c1 = b.not(c);
    let (frontier, ops) = get_opfns_and_frontier(&b, a1);
    assert_eq!(frontier.len(), 1);
    assert_eq!(frontier[0].id, a);
    assert_eq!(ops.len(), 1);
    assert_eq!(ops[0].data, MatrixData::hadamard());
}

#[test]
fn a_register_behind_two_aliases_is_visited_once() {
    let mut b = OpBuilder::new();
    let q = b.r(2);
    let q = b.hadamard(q);
    let parts = b.split_all(q);
    assert_eq!(parts.len(), 2);
    let all = b.merge(parts);
    let (frontier, ops) = get_opfns_and_frontier(&b, all);
    assert_eq!(frontier.len(), 1);
    assert_eq!(frontier[0].id, 0);
    assert_eq!(ops.len(), 1);
}

#[test]
fn a_controlled_operation_is_scheduled_once() {
    let mut b = OpBuilder::new();
    let control = b.r(1);
    let target = b.r(1);
    let (control, target) = condition(&mut b, control, target, "not", MatrixData::not());
    assert!(matches!(b.get(control).parent, Some(Parent::Shared(2))));
    assert!(matches!(b.get(target).parent, Some(Parent::Shared(2))));
    let all = b.merge(vec![control, target]);
    let (frontier, ops) = get_opfns_and_frontier(&b, all);
    assert_eq!(frontier.len(), 2);
    assert_eq!(ops.len(), 1);
    assert_eq!(ops[0].name, "C(not)");
    assert_eq!(ops[0].controls, vec![0]);
    assert_eq!(ops[0].indices, vec![1]);
}

#[test]
fn linearizing_twice_gives_the_same_lists() {
    let mut b = OpBuilder::new();
    let a = b.r(2);
    let c = b.r(1);
    let a = b.hadamard(a);
    let (c, a) = condition(&mut b, c, a, "y", MatrixData::y());
    let parts = b.split_all(a);
    let mut all = vec![c];
    all.extend(parts);
    let t = b.merge(all);
    let (f1, o1) = get_opfns_and_frontier(&b, t);
    let (f2, o2) = get_opfns_and_frontier(&b, t);
    assert_eq!(f1, f2);
    assert_eq!(o1, o2);
    assert_eq!(f1.len(), 2);
    assert_eq!(o1.len(), 2);
}

#[test]
fn a_frontier_register_is_its_own_frontier() {
    let mut b = OpBuilder::new();
    let a = b.r(3);
    let (frontier, ops) = get_opfns_and_frontier(&b, a);
    assert_eq!(frontier.len(), 1);
    assert_eq!(frontier[0].indices, vec![0, 1, 2]);
    assert!(ops.is_empty());
}

#[test]
fn pending_queue_gives_the_highest_first() {
    let mut heap = vec![3, 9, 4];
    assert!(qubit_in_heap(9, &heap));
    assert!(!qubit_in_heap(5, &heap));
    assert_eq!(pop_highest(&mut heap), 9);
    assert!(!qubit_in_heap(9, &heap));
    assert_eq!(pop_highest(&mut heap), 4);
    assert_eq!(pop_highest(&mut heap), 3);
    assert!(heap.is_empty());
}
