use crate::errors::RunError;
use crate::qubits::{node_wf, op_of, parents_of, reaches, table_wf, OpBuilder, Parent, QubitOp, Register};
use crate::state_ops::{ground, op_fits, op_fits_state, Amplitude, DenseState};
use std::collections::VecDeque;
use vstd::prelude::*;

verus! {

/// The values behind a sequence of references.
pub open spec fn values<T>(s: Seq<&T>) -> Seq<T> {
    s.map_values(|r: &T| *r)
}

/// The registers without a parent that `t` derives from and whose identifier
/// is at least `lo`, the highest identifier first.
pub open spec fn frontier_from(g: Seq<Register>, t: int, lo: int) -> Seq<Register>
    decreases t + 1 - lo,
{
    if lo < 0 || lo > t || t >= g.len() {
        Seq::empty()
    } else {
        let higher = frontier_from(g, t, lo + 1);
        if reaches(g, t, lo) && g[lo].parent is None {
            higher.push(g[lo])
        } else {
            higher
        }
    }
}

/// The operations of the registers that `t` derives from and whose identifier
/// is at least `lo`, the lowest identifier first.
pub open spec fn ops_from(g: Seq<Register>, t: int, lo: int) -> Seq<QubitOp>
    decreases t + 1 - lo,
{
    if lo < 0 || lo > t || t >= g.len() {
        Seq::empty()
    } else {
        let later = ops_from(g, t, lo + 1);
        if reaches(g, t, lo) && op_of(g[lo]) is Some {
            seq![op_of(g[lo])->0] + later
        } else {
            later
        }
    }
}

/// The frontier of `t`: the registers without a parent that make it up, in
/// the order of the wire layout.
pub open spec fn frontier_of(g: Seq<Register>, t: int) -> Seq<Register> {
    frontier_from(g, t, 0)
}

/// The operations that rebuild `t` from its frontier, in the order in which
/// they are to be applied.
pub open spec fn ops_of(g: Seq<Register>, t: int) -> Seq<QubitOp> {
    ops_from(g, t, 0)
}

/// A register derives only from registers that are not younger than itself.
pub proof fn lemma_reaches_le(g: Seq<Register>, t: int, v: int)
    requires
        reaches(g, t, v),
    ensures
        v <= t,
    decreases t,
{
    if v != t {
        let k = choose|k: int|
            0 <= k < parents_of(g[t]).len() && 0 <= (#[trigger] parents_of(g[t])[k]) < t && reaches(
                g,
                parents_of(g[t])[k] as int,
                v,
            );
        lemma_reaches_le(g, parents_of(g[t])[k] as int, v);
    }
}

/// Derivation is transitive.
pub proof fn lemma_reaches_trans(g: Seq<Register>, t: int, x: int, v: int)
    requires
        reaches(g, t, x),
        reaches(g, x, v),
    ensures
        reaches(g, t, v),
    decreases t,
{
    if x != t {
        let k = choose|k: int|
            0 <= k < parents_of(g[t]).len() && 0 <= (#[trigger] parents_of(g[t])[k]) < t && reaches(
                g,
                parents_of(g[t])[k] as int,
                x,
            );
        lemma_reaches_trans(g, parents_of(g[t])[k] as int, x, v);
    }
}

/// The identifiers of the registers that `t` derives from, that carry an
/// operation and whose identifier is at least `lo`, the lowest first.
pub open spec fn op_sources_from(g: Seq<Register>, t: int, lo: int) -> Seq<int>
    decreases t + 1 - lo,
{
    if lo < 0 || lo > t || t >= g.len() {
        Seq::empty()
    } else {
        let later = op_sources_from(g, t, lo + 1);
        if reaches(g, t, lo) && op_of(g[lo]) is Some {
            seq![lo] + later
        } else {
            later
        }
    }
}

/// What the scan for frontier registers from `lo` upward holds.
proof fn lemma_frontier_from(g: Seq<Register>, t: int, lo: int)
    requires
        table_wf(g),
        0 <= lo,
        0 <= t < g.len(),
    ensures
        forall|i: int|
            0 <= i < frontier_from(g, t, lo).len() ==> {
                let r = #[trigger] frontier_from(g, t, lo)[i];
                &&& lo <= r.id <= t
                &&& g[r.id as int] == r
                &&& r.parent is None
                &&& reaches(g, t, r.id as int)
            },
        forall|i: int, j: int|
            0 <= i < j < frontier_from(g, t, lo).len() ==> frontier_from(g, t, lo)[i].id
                > frontier_from(g, t, lo)[j].id,
        forall|v: int|
            lo <= v <= t && reaches(g, t, v) && g[v].parent is None ==> frontier_from(
                g,
                t,
                lo,
            ).contains(#[trigger] g[v]),
    decreases t + 1 - lo,
{
    if lo <= t {
        lemma_frontier_from(g, t, lo + 1);
        let higher = frontier_from(g, t, lo + 1);
        let all = frontier_from(g, t, lo);
        assert(node_wf(g[lo], lo));
        if reaches(g, t, lo) && g[lo].parent is None {
            assert(all == higher.push(g[lo]));
            assert(all[higher.len() as int] == g[lo]);
            assert forall|v: int|
                lo <= v <= t && reaches(g, t, v) && g[v].parent is None implies all.contains(
                #[trigger] g[v]) by {
                if v > lo {
                    let i = choose|i: int| 0 <= i < higher.len() && higher[i] == g[v];
                    assert(all[i] == g[v]);
                }
            }
        }
    }
}

/// What the scan for operations from `lo` upward holds.
proof fn lemma_ops_from(g: Seq<Register>, t: int, lo: int)
    requires
        table_wf(g),
        0 <= lo,
        0 <= t < g.len(),
    ensures
        ops_from(g, t, lo).len() == op_sources_from(g, t, lo).len(),
        forall|i: int|
            0 <= i < op_sources_from(g, t, lo).len() ==> {
                let v = #[trigger] op_sources_from(g, t, lo)[i];
                &&& lo <= v <= t
                &&& reaches(g, t, v)
                &&& op_of(g[v]) == Some(ops_from(g, t, lo)[i])
            },
        forall|i: int, j: int|
            0 <= i < j < op_sources_from(g, t, lo).len() ==> op_sources_from(g, t, lo)[i]
                < op_sources_from(g, t, lo)[j],
        forall|v: int|
            lo <= v <= t && reaches(g, t, v) && op_of(g[v]) is Some ==> op_sources_from(
                g,
                t,
                lo,
            ).contains(v),
    decreases t + 1 - lo,
{
    if lo <= t {
        lemma_ops_from(g, t, lo + 1);
        let later = op_sources_from(g, t, lo + 1);
        let all = op_sources_from(g, t, lo);
        if reaches(g, t, lo) && op_of(g[lo]) is Some {
            assert(all == seq![lo] + later);
            assert(all[0] == lo);
            assert forall|i: int| 1 <= i < all.len() implies all[i] == later[i - 1] by {}
            assert forall|v: int|
                lo <= v <= t && reaches(g, t, v) && op_of(g[v]) is Some implies all.contains(v) by {
                if v > lo {
                    let i = choose|i: int| 0 <= i < later.len() && later[i] == v;
                    assert(all[i + 1] == v);
                }
            }
        }
    }
}

/// The frontier of `t` holds exactly the registers without a parent that `t`
/// derives from, each of them once, the one with the highest identifier
/// first: however many chains of aliases lead to a register, it is listed a
/// single time.
pub proof fn lemma_frontier_exactly_once(g: Seq<Register>, t: int)
    requires
        table_wf(g),
        0 <= t < g.len(),
    ensures
        forall|i: int|
            0 <= i < frontier_of(g, t).len() ==> {
                let r = #[trigger] frontier_of(g, t)[i];
                &&& 0 <= r.id <= t
                &&& g[r.id as int] == r
                &&& r.parent is None
                &&& reaches(g, t, r.id as int)
            },
        forall|i: int, j: int|
            0 <= i < j < frontier_of(g, t).len() ==> frontier_of(g, t)[i].id > frontier_of(
                g,
                t,
            )[j].id,
        forall|v: int|
            0 <= v <= t && reaches(g, t, v) && g[v].parent is None ==> frontier_of(g, t).contains(
                #[trigger] g[v],
            ),
{
    lemma_frontier_from(g, t, 0);
}

/// The operation stream of `t` holds exactly the operations of the registers
/// that `t` derives from, one for each such register that carries one, the
/// operation of the oldest register first.
pub proof fn lemma_ops_exactly_once(g: Seq<Register>, t: int)
    requires
        table_wf(g),
        0 <= t < g.len(),
    ensures
        ops_of(g, t).len() == op_sources_from(g, t, 0).len(),
        forall|i: int|
            0 <= i < op_sources_from(g, t, 0).len() ==> {
                let v = #[trigger] op_sources_from(g, t, 0)[i];
                &&& 0 <= v <= t
                &&& reaches(g, t, v)
                &&& op_of(g[v]) == Some(ops_of(g, t)[i])
            },
        forall|i: int, j: int|
            0 <= i < j < op_sources_from(g, t, 0).len() ==> op_sources_from(g, t, 0)[i]
                < op_sources_from(g, t, 0)[j],
        forall|v: int|
            0 <= v <= t && reaches(g, t, v) && op_of(g[v]) is Some ==> op_sources_from(
                g,
                t,
                0,
            ).contains(v),
{
    lemma_ops_from(g, t, 0);
}

/// What a register derives from depends on the registers up to itself only.
proof fn lemma_reaches_in_prefix(g: Seq<Register>, h: Seq<Register>, t: int, v: int)
    requires
        0 <= t < g.len() <= h.len(),
        forall|i: int| 0 <= i < g.len() ==> g[i] == h[i],
    ensures
        reaches(g, t, v) == reaches(h, t, v),
    decreases t,
{
    if v != t {
        if reaches(g, t, v) {
            let k = choose|k: int|
                0 <= k < parents_of(g[t]).len() && 0 <= (#[trigger] parents_of(g[t])[k]) < t
                    && reaches(g, parents_of(g[t])[k] as int, v);
            lemma_reaches_in_prefix(g, h, parents_of(g[t])[k] as int, v);
            assert(0 <= k < parents_of(h[t]).len() && 0 <= parents_of(h[t])[k] < t && reaches(
                h,
                parents_of(h[t])[k] as int,
                v,
            ));
        }
        if reaches(h, t, v) {
            let k = choose|k: int|
                0 <= k < parents_of(h[t]).len() && 0 <= (#[trigger] parents_of(h[t])[k]) < t
                    && reaches(h, parents_of(h[t])[k] as int, v);
            lemma_reaches_in_prefix(g, h, parents_of(h[t])[k] as int, v);
            assert(0 <= k < parents_of(g[t]).len() && 0 <= parents_of(g[t])[k] < t && reaches(
                g,
                parents_of(g[t])[k] as int,
                v,
            ));
        }
    }
}

/// The scans of a table and of a longer table that begins with it agree.
proof fn lemma_scans_in_prefix(g: Seq<Register>, h: Seq<Register>, t: int, lo: int)
    requires
        0 <= lo,
        0 <= t < g.len() <= h.len(),
        forall|i: int| 0 <= i < g.len() ==> g[i] == h[i],
    ensures
        frontier_from(g, t, lo) == frontier_from(h, t, lo),
        ops_from(g, t, lo) == ops_from(h, t, lo),
    decreases t + 1 - lo,
{
    if lo <= t {
        lemma_scans_in_prefix(g, h, t, lo + 1);
        lemma_reaches_in_prefix(g, h, t, lo);
    }
}

/// Registers that are added to a table later change neither the frontier nor
/// the operations of a register that was there before.
pub proof fn lemma_linearization_is_stable(g: Seq<Register>, h: Seq<Register>, t: int)
    requires
        0 <= t < g.len() <= h.len(),
        h.take(g.len() as int) == g,
    ensures
        frontier_of(h, t) == frontier_of(g, t),
        ops_of(h, t) == ops_of(g, t),
{
    assert forall|i: int| 0 <= i < g.len() implies g[i] == h[i] by {
        assert(h.take(g.len() as int)[i] == h[i]);
    }
    lemma_scans_in_prefix(g, h, t, 0);
}

/// An operation is applied after the operations of every register that its
/// own register derives from.
pub proof fn lemma_ops_follow_derivation(g: Seq<Register>, t: int, i: int, j: int)
    requires
        table_wf(g),
        0 <= t < g.len(),
        0 <= i < op_sources_from(g, t, 0).len(),
        0 <= j < op_sources_from(g, t, 0).len(),
        i != j,
        reaches(g, op_sources_from(g, t, 0)[j], op_sources_from(g, t, 0)[i]),
    ensures
        i < j,
{
    lemma_ops_from(g, t, 0);
    lemma_reaches_le(g, op_sources_from(g, t, 0)[j], op_sources_from(g, t, 0)[i]);
}

/// Linearizing the same register of the same table twice gives the same
/// frontier, in the same order, and the same operations, in the same order.
pub proof fn lemma_linearization_is_deterministic(
    g: Seq<Register>,
    t: int,
    first: (Seq<&Register>, Seq<&QubitOp>),
    second: (Seq<&Register>, Seq<&QubitOp>),
)
    requires
        table_wf(g),
        0 <= t < g.len(),
        values(first.0) == frontier_of(g, t),
        values(first.1) == ops_of(g, t),
        values(second.0) == frontier_of(g, t),
        values(second.1) == ops_of(g, t),
    ensures
        first.0.len() == second.0.len(),
        first.1.len() == second.1.len(),
        forall|i: int| 0 <= i < first.0.len() ==> *first.0[i] == *second.0[i],
        forall|i: int| 0 <= i < first.1.len() ==> *first.1[i] == *second.1[i],
{
    assert(values(first.0).len() == first.0.len() && values(second.0).len() == second.0.len());
    assert(values(first.1).len() == first.1.len() && values(second.1).len() == second.1.len());
    assert forall|i: int| 0 <= i < first.0.len() implies *first.0[i] == *second.0[i] by {
        assert(values(first.0)[i] == values(second.0)[i]);
    }
    assert forall|i: int| 0 <= i < first.1.len() implies *first.1[i] == *second.1[i] by {
        assert(values(first.1)[i] == values(second.1)[i]);
    }
}

/// Whether `q` is among the pending registers.
pub fn qubit_in_heap(q: usize, heap: &Vec<usize>) -> (found: bool)
    ensures
        found == heap@.contains(q),
{
    let mut i: usize = 0;
    while i < heap.len()
        invariant
            i <= heap.len(),
            forall|j: int| 0 <= j < i ==> heap@[j] != q,
        decreases heap.len() - i,
    {
        if heap[i] == q {
            return true;
        }
        i = i + 1;
    }
    false
}

/// Takes the pending register with the highest identifier.
pub fn pop_highest(heap: &mut Vec<usize>) -> (top: usize)
    requires
        old(heap)@.len() > 0,
        old(heap)@.no_duplicates(),
    ensures
        old(heap)@.contains(top),
        forall|x: usize| old(heap)@.contains(x) ==> x <= top,
        final(heap)@.no_duplicates(),
        final(heap)@.len() == old(heap)@.len() - 1,
        forall|x: usize| final(heap)@.contains(x) <==> (old(heap)@.contains(x) && x != top),
{
    let mut best: usize = 0;
    let mut i: usize = 1;
    while i < heap.len()
        invariant
            1 <= i <= heap.len(),
            best < i,
            forall|j: int| 0 <= j < i ==> heap@[j] <= heap@[best as int],
        decreases heap.len() - i,
    {
        if heap[i] > heap[best] {
            best = i;
        }
        i = i + 1;
    }
    let top = heap.remove(best);
    proof {
        let before = old(heap)@;
        let after = heap@;
        assert(after == before.remove(best as int));
        assert forall|x: usize| after.contains(x) <==> (before.contains(x) && x != top) by {
            if after.contains(x) {
                let j = choose|j: int| 0 <= j < after.len() && after[j] == x;
                if j < best {
                    assert(before[j] == x);
                } else {
                    assert(before[j + 1] == x);
                }
            }
            if before.contains(x) && x != top {
                let j = choose|j: int| 0 <= j < before.len() && before[j] == x;
                if j < best {
                    assert(after[j] == x);
                } else {
                    assert(after[j - 1] == x);
                }
            }
        }
        assert forall|x: usize| before.contains(x) implies x <= top by {
            let j = choose|j: int| 0 <= j < before.len() && before[j] == x;
        }
    }
    top
}

/// Some pending register derives from `v`.
pub open spec fn covered(g: Seq<Register>, heap: Seq<usize>, v: int) -> bool {
    exists|i: int| 0 <= i < heap.len() && #[trigger] reaches(g, heap[i] as int, v)
}

/// Where every register in `lo..hi` has a parent or is none that `t` derives
/// from, the scan for the frontier from `lo` finds what the scan from `hi`
/// finds.
pub proof fn lemma_frontier_skips(g: Seq<Register>, t: int, lo: int, hi: int)
    requires
        0 <= lo <= hi <= t + 1,
        t < g.len(),
        forall|v: int| lo <= v < hi ==> !reaches(g, t, v) || g[v].parent is Some,
    ensures
        frontier_from(g, t, lo) == frontier_from(g, t, hi),
    decreases hi - lo,
{
    if lo < hi {
        lemma_frontier_skips(g, t, lo + 1, hi);
    }
}

/// Where every register in `lo..hi` carries no operation or is none that `t`
/// derives from, the scan for operations from `lo` finds what the scan from
/// `hi` finds.
pub proof fn lemma_ops_skip(g: Seq<Register>, t: int, lo: int, hi: int)
    requires
        0 <= lo <= hi <= t + 1,
        t < g.len(),
        forall|v: int| lo <= v < hi ==> !reaches(g, t, v) || op_of(g[v]) is None,
    ensures
        ops_from(g, t, lo) == ops_from(g, t, hi),
    decreases hi - lo,
{
    if lo < hi {
        lemma_ops_skip(g, t, lo + 1, hi);
    }
}

/// Walks back from register `q` and returns its frontier, the registers
/// without a parent that it is made of, and the operations that rebuild it
/// from them in the order in which they are to be applied.
pub fn get_opfns_and_frontier<'a>(b: &'a OpBuilder, q: usize) -> (r: (
    Vec<&'a Register>,
    Vec<&'a QubitOp>,
))
    requires
        b.wf(),
        q < b@.len(),
    ensures
        values(r.0@) == frontier_of(b@, q as int),
        values(r.1@) == ops_of(b@, q as int),
{
    let ghost g = b@;
    let ghost t = q as int;
    let n = b.len();
    let mut heap: Vec<usize> = Vec::new();
    heap.push(q);
    let mut visited: Vec<bool> = Vec::new();
    let mut c: usize = 0;
    while c < n
        invariant
            c <= n,
            visited@.len() == c,
            forall|v: int| 0 <= v < c ==> !visited@[v],
        decreases n - c,
    {
        visited.push(false);
        c = c + 1;
    }
    let mut frontier_qubits: Vec<&Register> = Vec::new();
    let mut fn_queue: VecDeque<&QubitOp> = VecDeque::new();
    let ghost mut bound: int = t + 1;
    proof {
        assert(reaches(g, t, heap@[0] as int));
        assert forall|v: int| reaches(g, t, v) implies v < bound by {
            lemma_reaches_le(g, t, v);
        }
        assert forall|v: int| 0 <= v < bound && reaches(g, t, v) implies covered(g, heap@, v) by {
            assert(reaches(g, heap@[0] as int, v));
        }
        assert(values(frontier_qubits@) =~= frontier_from(g, t, bound));
        assert(values(fn_queue@) =~= ops_from(g, t, bound));
    }
    while heap.len() > 0
        invariant
            g == b@,
            t == q as int,
            n == g.len(),
            table_wf(g),
            t < n,
            visited@.len() == n,
            0 <= bound <= t + 1,
            heap@.no_duplicates(),
            forall|i: int| 0 <= i < heap@.len() ==> heap@[i] < bound && reaches(g, t, heap@[i] as int),
            forall|v: int| 0 <= v < bound && reaches(g, t, v) ==> covered(g, heap@, v),
            forall|v: int| 0 <= v < n ==> (visited@[v] <==> (v >= bound && reaches(g, t, v))),
            values(frontier_qubits@) == frontier_from(g, t, bound),
            values(fn_queue@) == ops_from(g, t, bound),
        decreases bound,
    {
        let ghost heap_before = heap@;
        let ghost frontier_before = frontier_qubits@;
        let ghost queue_before = fn_queue@;
        let m = pop_highest(&mut heap);
        let ghost heap_popped = heap@;
        proof {
            assert(m < bound && reaches(g, t, m as int)) by {
                let i = choose|i: int| 0 <= i < heap_before.len() && heap_before[i] == m;
            }
            // nothing between m and the old bound derives from t
            assert forall|v: int| m < v < bound implies !reaches(g, t, v) by {
                if reaches(g, t, v) {
                    assert(covered(g, heap_before, v));
                    let i = choose|i: int|
                        0 <= i < heap_before.len() && #[trigger] reaches(g, heap_before[i] as int, v);
                    lemma_reaches_le(g, heap_before[i] as int, v);
                    assert(heap_before.contains(heap_before[i]));
                }
            }
            lemma_frontier_skips(g, t, m as int + 1, bound);
            lemma_ops_skip(g, t, m as int + 1, bound);
            assert(node_wf(g[m as int], m as int));
            assert forall|i: int| 0 <= i < heap_popped.len() implies heap_popped[i] < m && reaches(
                g,
                t,
                heap_popped[i] as int,
            ) by {
                assert(heap_popped.contains(heap_popped[i]));
                assert(heap_before.contains(heap_popped[i]));
                let j = choose|j: int| 0 <= j < heap_before.len() && heap_before[j] == heap_popped[i];
            }
        }
        visited.set(m, true);
        let reg = b.get(m);
        match &reg.parent {
            None => {
                frontier_qubits.push(reg);
                proof {
                    assert(values(frontier_qubits@) =~= values(frontier_before).push(*reg));
                    assert forall|v: int| 0 <= v < m && reaches(g, t, v) implies covered(
                        g,
                        heap@,
                        v,
                    ) by {
                        assert(covered(g, heap_before, v));
                        let i = choose|i: int|
                            0 <= i < heap_before.len() && #[trigger] reaches(
                                g,
                                heap_before[i] as int,
                                v,
                            );
                        if heap_before[i] == m {
                            assert(parents_of(g[m as int]).len() == 0);
                            assert(false);
                        } else {
                            assert(heap@.contains(heap_before[i]));
                            let j = choose|j: int| 0 <= j < heap@.len() && heap@[j] == heap_before[i];
                            assert(reaches(g, heap@[j] as int, v));
                        }
                    }
                }
            },
            Some(Parent::Owned(parents, op)) => {
                match op {
                    Some(o) => {
                        fn_queue.push_front(o);
                        proof {
                            assert(values(fn_queue@) =~= seq![*o] + values(queue_before));
                        }
                    },
                    None => {},
                }
                let mut k: usize = 0;
                while k < parents.len()
                    invariant
                        g == b@,
                        t == q as int,
                        n == g.len(),
                        table_wf(g),
                        t < n,
                        m < n,
                        visited@.len() == n,
                        forall|v: int| 0 <= v < m ==> !visited@[v],
                        k <= parents.len(),
                        parents@ == parents_of(g[m as int]),
                        reaches(g, t, m as int),
                        heap@.no_duplicates(),
                        forall|i: int|
                            0 <= i < heap@.len() ==> heap@[i] < m && reaches(g, t, heap@[i] as int),
                        forall|i: int|
                            0 <= i < heap_popped.len() ==> heap@.contains(#[trigger] heap_popped[i]),
                        forall|j: int| 0 <= j < k ==> heap@.contains(#[trigger] parents@[j]),
                    decreases parents.len() - k,
                {
                    let p = parents[k];
                    proof {
                        assert(node_wf(g[m as int], m as int));
                        assert(parents_of(g[m as int])[k as int] < m);
                        assert(reaches(g, p as int, p as int));
                        assert(reaches(g, m as int, p as int));
                        lemma_reaches_trans(g, t, m as int, p as int);
                    }
                    if !visited[p] && !qubit_in_heap(p, &heap) {
                        let ghost heap_old = heap@;
                        heap.push(p);
                        proof {
                            assert(heap@[heap_old.len() as int] == p);
                            assert forall|x: usize| heap_old.contains(x) implies heap@.contains(
                                x,
                            ) by {
                                let i = choose|i: int| 0 <= i < heap_old.len() && heap_old[i] == x;
                                assert(heap@[i] == x);
                            }
                        }
                    }
                    k = k + 1;
                }
                proof {
                    assert forall|v: int| 0 <= v < m && reaches(g, t, v) implies covered(
                        g,
                        heap@,
                        v,
                    ) by {
                        assert(covered(g, heap_before, v));
                        let i = choose|i: int|
                            0 <= i < heap_before.len() && #[trigger] reaches(
                                g,
                                heap_before[i] as int,
                                v,
                            );
                        if heap_before[i] == m {
                            let kk = choose|kk: int|
                                0 <= kk < parents_of(g[m as int]).len() && 0 <= (
                                #[trigger] parents_of(g[m as int])[kk]) < m && reaches(
                                    g,
                                    parents_of(g[m as int])[kk] as int,
                                    v,
                                );
                            assert(heap@.contains(parents@[kk]));
                            let j = choose|j: int| 0 <= j < heap@.len() && heap@[j] == parents@[kk];
                            assert(reaches(g, heap@[j] as int, v));
                        } else {
                            assert(heap_popped.contains(heap_before[i]));
                            let i2 = choose|i2: int|
                                0 <= i2 < heap_popped.len() && heap_popped[i2] == heap_before[i];
                            assert(heap@.contains(heap_popped[i2]));
                            let j = choose|j: int| 0 <= j < heap@.len() && heap@[j] == heap_before[i];
                            assert(reaches(g, heap@[j] as int, v));
                        }
                    }
                }
            },
            Some(Parent::Shared(referent)) => {
                let p = *referent;
                proof {
                    assert(parents_of(g[m as int])[0] == p);
                    assert(reaches(g, p as int, p as int));
                    assert(reaches(g, m as int, p as int));
                    lemma_reaches_trans(g, t, m as int, p as int);
                }
                if !visited[p] && !qubit_in_heap(p, &heap) {
                    heap.push(p);
                    proof {
                        assert(heap@[heap_popped.len() as int] == p);
                    }
                }
                proof {
                    assert(heap@.contains(p));
                    assert forall|x: usize| heap_popped.contains(x) implies heap@.contains(x) by {
                        let i = choose|i: int| 0 <= i < heap_popped.len() && heap_popped[i] == x;
                        assert(heap@[i] == x);
                    }
                    assert forall|v: int| 0 <= v < m && reaches(g, t, v) implies covered(
                        g,
                        heap@,
                        v,
                    ) by {
                        assert(covered(g, heap_before, v));
                        let i = choose|i: int|
                            0 <= i < heap_before.len() && #[trigger] reaches(
                                g,
                                heap_before[i] as int,
                                v,
                            );
                        if heap_before[i] == m {
                            let j = choose|j: int| 0 <= j < heap@.len() && heap@[j] == p;
                            assert(reaches(g, heap@[j] as int, v));
                        } else {
                            assert(heap_popped.contains(heap_before[i]));
                            let j = choose|j: int| 0 <= j < heap@.len() && heap@[j] == heap_before[i];
                            assert(reaches(g, heap@[j] as int, v));
                        }
                    }
                }
            },
        }
        proof {
            bound = m as int;
        }
    }
    proof {
        assert forall|v: int| 0 <= v < bound implies !reaches(g, t, v) by {
            if reaches(g, t, v) {
                assert(covered(g, heap@, v));
            }
        }
        lemma_frontier_skips(g, t, 0, bound);
        lemma_ops_skip(g, t, 0, bound);
    }
    let mut ops: Vec<&QubitOp> = Vec::new();
    let ghost queue_all = fn_queue@;
    while fn_queue.len() > 0
        invariant
            ops@ + fn_queue@ == queue_all,
        decreases fn_queue@.len(),
    {
        let ghost before = fn_queue@;
        let ghost ops_before = ops@;
        match fn_queue.pop_front() {
            Some(o) => {
                ops.push(o);
                proof {
                    assert(ops@ + fn_queue@ =~= ops_before + before);
                }
            },
            None => {},
        }
    }
    proof {
        assert(ops@ =~= queue_all);
    }
    (frontier_qubits, ops)
}

/// A representation of a quantum state that operations can be applied to.
pub trait QuantumState: Sized {
    /// Whether applying `op` to the state `pre` may leave the state `post`.
    /// A representation that says nothing of itself allows every outcome.
    open spec fn step(pre: Self, op: QubitOp, post: Self) -> bool {
        true
    }

    /// Changes the state into the one with `op` applied.
    fn apply_op(&mut self, op: &QubitOp)
        ensures
            Self::step(*old(self), *op, *final(self)),
    ;
}

/// Whether applying `ops` to `init` one after the other, each to what the
/// one before it left, may leave the state `last`.
pub open spec fn run_steps<QS: QuantumState>(init: QS, ops: Seq<QubitOp>, last: QS) -> bool
    decreases ops.len(),
{
    if ops.len() == 0 {
        last == init
    } else {
        exists|mid: QS|
            #![trigger QS::step(mid, ops.last(), last)]
            run_steps(init, ops.drop_last(), mid) && QS::step(mid, ops.last(), last)
    }
}

/// One more operation extends a run.
proof fn lemma_run_steps_push<QS: QuantumState>(init: QS, ops: Seq<QubitOp>, mid: QS, op: QubitOp, last: QS)
    requires
        run_steps(init, ops, mid),
        QS::step(mid, op, last),
    ensures
        run_steps(init, ops.push(op), last),
{
    let all = ops.push(op);
    assert(all.drop_last() == ops);
    assert(all.last() == op);
    assert(run_steps(init, all.drop_last(), mid) && QS::step(mid, all.last(), last));
}

/// Applies `op` to `s` and hands the state back.
pub fn fold_apply_op<QS: QuantumState>(s: QS, op: &QubitOp) -> (r: QS)
    ensures
        QS::step(s, *op, r),
{
    let mut s = s;
    s.apply_op(op);
    s
}

/// Applies the operations to `initial_state` strictly in order: each one to
/// the state that the one before it left.
pub fn apply_ops<QS: QuantumState>(initial_state: QS, ops: &Vec<&QubitOp>) -> (r: QS)
    ensures
        run_steps(initial_state, values(ops@), r),
{
    let ghost init = initial_state;
    let mut state = initial_state;
    let mut i: usize = 0;
    while i < ops.len()
        invariant
            i <= ops.len(),
            run_steps(init, values(ops@).take(i as int), state),
        decreases ops.len() - i,
    {
        let ghost before = state;
        state = fold_apply_op(state, ops[i]);
        proof {
            let done = values(ops@).take(i as int + 1);
            lemma_run_steps_push(init, values(ops@).take(i as int), before, *ops@[i as int], state);
            assert(done == values(ops@).take(i as int).push(*ops@[i as int]));
        }
        i = i + 1;
    }
    proof {
        assert(values(ops@).take(ops@.len() as int) == values(ops@));
    }
    state
}

/// Linearizes the provenance of register `q`, has `state_builder` make the
/// initial state for its frontier, and applies the operations to that state
/// strictly in order.
pub fn run_with_state<'a, QS: QuantumState, F: FnOnce(Vec<&'a Register>) -> QS>(
    b: &'a OpBuilder,
    q: usize,
    state_builder: F,
) -> (r: QS)
    requires
        b.wf(),
        q < b@.len(),
        forall|f: Vec<&Register>|
            values(f@) == frontier_of(b@, q as int) ==> call_requires(state_builder, (f,)),
    ensures
        exists|f: Vec<&Register>, init: QS|
            values(f@) == frontier_of(b@, q as int) && #[trigger] call_ensures(
                state_builder,
                (f,),
                init,
            ) && run_steps(init, ops_of(b@, q as int), r),
{
    let (frontier, ops) = get_opfns_and_frontier(b, q);
    let ghost f = frontier;
    let initial_state = state_builder(frontier);
    let ghost init = initial_state;
    let state = apply_ops(initial_state, &ops);
    proof {
        assert(call_ensures(state_builder, (f,), init));
    }
    state
}

/// A dense state keeps its shape through a run.
pub proof fn lemma_dense_run_keeps_shape<A: Amplitude>(
    init: DenseState<A>,
    ops: Seq<QubitOp>,
    last: DenseState<A>,
)
    requires
        init.wf(),
        run_steps(init, ops, last),
    ensures
        last.wf(),
        last.wires() == init.wires(),
    decreases ops.len(),
{
    if ops.len() > 0 {
        let mid = choose|mid: DenseState<A>|
            #![trigger DenseState::<A>::step(mid, ops.last(), last)]
            run_steps(init, ops.drop_last(), mid) && DenseState::<A>::step(mid, ops.last(), last);
        lemma_dense_run_keeps_shape(init, ops.drop_last(), mid);
    }
}

/// Every operation of the list can be applied to a state of `n` wires.
pub open spec fn all_fit(n: u64, ops: Seq<QubitOp>) -> bool {
    forall|i: int| 0 <= i < ops.len() ==> op_fits(n, (#[trigger] ops[i])@)
}

/// Linearizes the provenance of register `q` and applies its operations, in
/// order, to the ground state of as many wires as its frontier has. `zero`
/// and `one` are the amplitudes that the ground state is made of. Fails
/// where no vector can hold the amplitudes of that many wires, and where an
/// operation does not fit a state of that many wires.
pub fn run<A: Amplitude>(b: &OpBuilder, q: usize, zero: A, one: A) -> (r: Result<
    DenseState<A>,
    RunError,
>)
    requires
        b.wf(),
        q < b@.len(),
    ensures
        match r {
            Ok(s) => {
                let n = wire_sum(frontier_of(b@, q as int));
                &&& n < 64
                &&& all_fit(n as u64, ops_of(b@, q as int))
                &&& s.wf()
                &&& s.wires() == n
                &&& exists|init: DenseState<A>|
                    #![trigger run_steps(init, ops_of(b@, q as int), s)]
                    init.wf() && init.wires() == n && init@ == ground(n as u64, zero, one)
                        && run_steps(init, ops_of(b@, q as int), s)
                &&& ops_of(b@, q as int).len() == 0 ==> s@ == ground(n as u64, zero, one)
            },
            Err(RunError::TooManyWires) => {
                let n = wire_sum(frontier_of(b@, q as int));
                n >= 64 || (1u64 << (n as u64)) > usize::MAX
            },
            Err(RunError::OperationDoesNotFit) => {
                let n = wire_sum(frontier_of(b@, q as int));
                &&& n < 64
                &&& (1u64 << (n as u64)) <= usize::MAX
                &&& !all_fit(n as u64, ops_of(b@, q as int))
            },
        },
{
    let (frontier, ops) = get_opfns_and_frontier(b, q);
    let n = match frontier_wires(&frontier) {
        Some(n) => n,
        None => {
            return Err(RunError::TooManyWires);
        },
    };
    let initial_state = match DenseState::new(n, zero, one) {
        Some(s) => s,
        None => {
            return Err(RunError::TooManyWires);
        },
    };
    let ghost stream = ops_of(b@, q as int);
    proof {
        initial_state.lemma_len();
    }
    let mut i: usize = 0;
    while i < ops.len()
        invariant
            i <= ops.len(),
            values(ops@) == stream,
            stream == ops_of(b@, q as int),
            n == wire_sum(frontier_of(b@, q as int)),
            n < 64,
            (1u64 << n) <= usize::MAX,
            forall|j: int| 0 <= j < i ==> op_fits(n, (#[trigger] stream[j])@),
        decreases ops.len() - i,
    {
        if !op_fits_state(n, ops[i]) {
            proof {
                assert(stream[i as int] == *ops@[i as int]);
                assert(!op_fits(n, stream[i as int]@));
            }
            return Err(RunError::OperationDoesNotFit);
        }
        proof {
            assert(stream[i as int] == *ops@[i as int]);
        }
        i = i + 1;
    }
    proof {
        assert(stream.len() == ops@.len());
        assert(all_fit(n, stream));
    }
    let ghost init = initial_state;
    let state = apply_ops(initial_state, &ops);
    proof {
        lemma_dense_run_keeps_shape(init, ops_of(b@, q as int), state);
        assert(n == wire_sum(frontier_of(b@, q as int)));
        if ops_of(b@, q as int).len() == 0 {
            assert(state == init);
        }
        assert(init.wf() && init.wires() == n && init@ == ground(n, zero, one) && run_steps(
            init,
            ops_of(b@, q as int),
            state,
        ));
    }
    Ok(state)
}

/// The number of wires of a list of registers.
pub open spec fn wire_sum(rs: Seq<Register>) -> nat
    decreases rs.len(),
{
    if rs.len() == 0 {
        0
    } else {
        wire_sum(rs.drop_last()) + rs.last().indices@.len()
    }
}

/// The total number of wires of the registers of a frontier: the number of
/// wires that the initial state is to have. `None` where the number does not
/// fit.
pub fn frontier_wires(frontier: &Vec<&Register>) -> (n: Option<u64>)
    ensures
        match n {
            Some(n) => n == wire_sum(values(frontier@)),
            None => wire_sum(values(frontier@)) > u64::MAX,
        },
{
    let mut n: u64 = 0;
    let mut i: usize = 0;
    while i < frontier.len()
        invariant
            i <= frontier.len(),
            n == wire_sum(values(frontier@).take(i as int)),
        decreases frontier.len() - i,
    {
        proof {
            let done = values(frontier@).take(i as int + 1);
            assert(done.drop_last() == values(frontier@).take(i as int));
            assert(done.last() == *frontier@[i as int]);
            lemma_wire_sum_grows(values(frontier@), i as int + 1);
        }
        let w = frontier[i].indices.len() as u64;
        match n.checked_add(w) {
            Some(sum) => {
                n = sum;
            },
            None => {
                return None;
            },
        }
        i = i + 1;
    }
    proof {
        assert(values(frontier@).take(frontier@.len() as int) == values(frontier@));
    }
    Some(n)
}

/// The wires of the first `k` registers are among the wires of all of them.
proof fn lemma_wire_sum_grows(rs: Seq<Register>, k: int)
    requires
        0 <= k <= rs.len(),
    ensures
        wire_sum(rs.take(k)) <= wire_sum(rs),
    decreases rs.len() - k,
{
    if k < rs.len() {
        lemma_wire_sum_grows(rs, k + 1);
        assert(rs.take(k + 1).drop_last() == rs.take(k));
    } else {
        assert(rs.take(k) == rs);
    }
}

} // verus!
