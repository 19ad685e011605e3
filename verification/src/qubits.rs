use crate::errors::CircuitError;
use crate::matrix::{
    hadamard_matrix, not_matrix, swap_fits, swap_matrix, y_matrix, z_matrix, MatrixData, MatrixView,
};
use vstd::prelude::*;

verus! {

/// A named transform of the amplitudes: a matrix applied to the wires
/// `indices`, on those basis states in which every wire of `controls` is set.
#[derive(Clone, Debug, PartialEq, Eq)]
pub struct QubitOp {
    pub name: String,
    pub controls: Vec<u64>,
    pub indices: Vec<u64>,
    pub data: MatrixData,
}

/// What an operation holds.
pub struct OpView {
    pub name: Seq<char>,
    pub controls: Seq<u64>,
    pub indices: Seq<u64>,
    pub data: MatrixView,
}

impl View for QubitOp {
    type V = OpView;

    open spec fn view(&self) -> OpView {
        OpView {
            name: self.name@,
            controls: self.controls@,
            indices: self.indices@,
            data: self.data@,
        }
    }
}

/// How a register came to be.
#[derive(Clone, Debug, PartialEq, Eq)]
pub enum Parent {
    /// The register consumed the listed registers, after applying the
    /// operation to their wires if there is one.
    Owned(Vec<usize>, Option<QubitOp>),
    /// The register is an alias of another one, which it does not consume.
    Shared(usize),
}

/// One node of the provenance table.
#[derive(Clone, Debug, PartialEq, Eq)]
pub struct Register {
    pub id: usize,
    pub indices: Vec<u64>,
    pub parent: Option<Parent>,
}

/// What a parent descriptor holds.
pub enum ParentView {
    Owned(Seq<usize>, Option<OpView>),
    Shared(usize),
}

impl View for Parent {
    type V = ParentView;

    open spec fn view(&self) -> ParentView {
        match self {
            Parent::Owned(parents, op) => ParentView::Owned(
                parents@,
                match op {
                    Some(o) => Some(o@),
                    None => None,
                },
            ),
            Parent::Shared(referent) => ParentView::Shared(*referent),
        }
    }
}

/// What a register holds.
pub struct RegisterView {
    pub id: usize,
    pub indices: Seq<u64>,
    pub parent: Option<ParentView>,
}

impl View for Register {
    type V = RegisterView;

    open spec fn view(&self) -> RegisterView {
        RegisterView {
            id: self.id,
            indices: self.indices@,
            parent: match self.parent {
                Some(p) => Some(p@),
                None => None,
            },
        }
    }
}

/// The table `after` is the table `before` followed by registers that hold
/// what `nodes` lists.
pub open spec fn appended(before: Seq<Register>, after: Seq<Register>, nodes: Seq<RegisterView>) -> bool {
    &&& after.len() == before.len() + nodes.len()
    &&& after.take(before.len() as int) == before
    &&& forall|j: int| 0 <= j < nodes.len() ==> (#[trigger] after[before.len() + j])@ == nodes[j]
}

/// The wires of the listed registers, one register after the other.
pub open spec fn joined_indices(g: Seq<Register>, rs: Seq<usize>) -> Seq<u64>
    decreases rs.len(),
{
    if rs.len() == 0 {
        Seq::empty()
    } else {
        joined_indices(g, rs.drop_last()) + g[rs.last() as int].indices@
    }
}

/// The name of the operation `name` under a control.
pub open spec fn controlled_name(name: Seq<char>) -> Seq<char> {
    "C("@ + name + ")"@
}

/// The three registers that a controlled matrix adds to the table `g`: the
/// register that consumes the control register `cr` and the target register
/// `r` and carries the operation, and an alias of it for each of the two.
pub open spec fn controlled_nodes(
    g: Seq<Register>,
    cr: usize,
    r: usize,
    name: Seq<char>,
    data: MatrixView,
) -> Seq<RegisterView> {
    let k = g.len() as usize;
    let c = g[cr as int].indices@;
    let t = g[r as int].indices@;
    seq![
        RegisterView {
            id: k,
            indices: c + t,
            parent: Some(
                ParentView::Owned(
                    seq![cr, r],
                    Some(OpView { name: controlled_name(name), controls: c, indices: t, data }),
                ),
            ),
        },
        RegisterView { id: (k + 1) as usize, indices: c, parent: Some(ParentView::Shared(k)) },
        RegisterView { id: (k + 2) as usize, indices: t, parent: Some(ParentView::Shared(k)) },
    ]
}

/// The register that applying the matrix `data` to register `r` adds to the
/// table `g`: it consumes `r`, keeps its wires and carries the operation.
pub open spec fn applied_node(g: Seq<Register>, r: usize, name: Seq<char>, data: MatrixView) -> RegisterView {
    RegisterView {
        id: g.len() as usize,
        indices: g[r as int].indices@,
        parent: Some(
            ParentView::Owned(
                seq![r],
                Some(OpView { name, controls: Seq::empty(), indices: g[r as int].indices@, data }),
            ),
        ),
    }
}

/// The two aliases that splitting register `r` after its first `k` wires adds
/// to the table `g`.
pub open spec fn split_nodes(g: Seq<Register>, r: usize, k: int) -> Seq<RegisterView> {
    seq![
        RegisterView {
            id: g.len() as usize,
            indices: g[r as int].indices@.take(k),
            parent: Some(ParentView::Shared(r)),
        },
        RegisterView {
            id: (g.len() + 1) as usize,
            indices: g[r as int].indices@.skip(k),
            parent: Some(ParentView::Shared(r)),
        },
    ]
}

/// The four registers that exchanging the registers `ra` and `rb` adds to the
/// table `g`: the two merged, the merged register under the exchange matrix,
/// and an alias of that one for each half of its wires.
pub open spec fn swap_nodes(g: Seq<Register>, ra: usize, rb: usize) -> Seq<RegisterView> {
    let len = g.len() as usize;
    let a = g[ra as int].indices@;
    let b = g[rb as int].indices@;
    seq![
        RegisterView { id: len, indices: a + b, parent: Some(ParentView::Owned(seq![ra, rb], None)) },
        RegisterView {
            id: (len + 1) as usize,
            indices: a + b,
            parent: Some(
                ParentView::Owned(
                    seq![len],
                    Some(
                        OpView {
                            name: "swap"@,
                            controls: Seq::empty(),
                            indices: a + b,
                            data: swap_matrix(a.len() as u64),
                        },
                    ),
                ),
            ),
        },
        RegisterView {
            id: (len + 2) as usize,
            indices: a,
            parent: Some(ParentView::Shared((len + 1) as usize)),
        },
        RegisterView {
            id: (len + 3) as usize,
            indices: b,
            parent: Some(ParentView::Shared((len + 1) as usize)),
        },
    ]
}

/// Growing a table twice grows it by the two lists of registers, one after
/// the other; what it held before stays.
pub proof fn lemma_appended_twice(
    g0: Seq<Register>,
    g1: Seq<Register>,
    g2: Seq<Register>,
    first: Seq<RegisterView>,
    second: Seq<RegisterView>,
)
    requires
        appended(g0, g1, first),
        appended(g1, g2, second),
    ensures
        appended(g0, g2, first + second),
        forall|i: int| 0 <= i < g1.len() ==> g2[i] == g1[i],
{
    assert forall|i: int| 0 <= i < g1.len() implies g2[i] == g1[i] by {
        assert(g2.take(g1.len() as int)[i] == g2[i]);
    }
    assert(g2.take(g0.len() as int) == g0) by {
        assert forall|i: int| 0 <= i < g0.len() implies g2.take(g0.len() as int)[i] == g0[i] by {
            assert(g1.take(g0.len() as int)[i] == g1[i]);
        }
    }
    assert forall|j: int| 0 <= j < (first + second).len() implies (#[trigger] g2[g0.len() + j])@ == (
    first + second)[j] by {
        if j < first.len() {
            assert(g1[g0.len() + j]@ == first[j]);
        } else {
            assert(g2[g1.len() + (j - first.len())]@ == second[j - first.len()]);
        }
    }
}

/// The wires of two registers, one after the other.
pub proof fn lemma_joined_pair(g: Seq<Register>, ra: usize, rb: usize)
    ensures
        joined_indices(g, seq![ra, rb]) == g[ra as int].indices@ + g[rb as int].indices@,
{
    assert(seq![ra, rb].drop_last() == seq![ra]);
    assert(seq![ra].drop_last() == Seq::<usize>::empty());
    assert(joined_indices(g, seq![ra]) == g[ra as int].indices@) by {
        assert(joined_indices(g, Seq::<usize>::empty()) == Seq::<u64>::empty());
        assert(Seq::<u64>::empty() + g[ra as int].indices@ == g[ra as int].indices@);
    }
}

/// A copy of a list of wires.
pub fn copy_wires(wires: &Vec<u64>) -> (copy: Vec<u64>)
    ensures
        copy@ == wires@,
{
    let mut copy: Vec<u64> = Vec::new();
    let mut i: usize = 0;
    while i < wires.len()
        invariant
            i <= wires@.len(),
            copy@ == wires@.take(i as int),
        decreases wires.len() - i,
    {
        copy.push(wires[i]);
        proof {
            assert(wires@.take(i as int).push(wires@[i as int]) == wires@.take(i as int + 1));
        }
        i = i + 1;
    }
    proof {
        assert(wires@.take(wires@.len() as int) == wires@);
    }
    copy
}

/// The identifiers of the registers that `r` was derived from.
pub open spec fn parents_of(r: Register) -> Seq<usize> {
    match r.parent {
        None => Seq::empty(),
        Some(Parent::Owned(parents, _)) => parents@,
        Some(Parent::Shared(referent)) => seq![referent],
    }
}

/// The operation that produced `r`, if one did.
pub open spec fn op_of(r: Register) -> Option<QubitOp> {
    match r.parent {
        Some(Parent::Owned(_, op)) => op,
        _ => None,
    }
}

/// `r` stands at position `i` of a table and refers only to earlier positions.
pub open spec fn node_wf(r: Register, i: int) -> bool {
    &&& r.id == i
    &&& forall|k: int| 0 <= k < parents_of(r).len() ==> (#[trigger] parents_of(r)[k]) < i
}

/// Every register of the table stands at the position that its identifier
/// names, and derives from registers created before it.
pub open spec fn table_wf(g: Seq<Register>) -> bool {
    forall|i: int| 0 <= i < g.len() ==> node_wf(#[trigger] g[i], i)
}

/// There is a chain of parent links from register `t` to register `v`.
pub open spec fn reaches(g: Seq<Register>, t: int, v: int) -> bool
    decreases t,
{
    v == t || (0 <= t < g.len() && exists|k: int|
        0 <= k < parents_of(g[t]).len() && 0 <= (#[trigger] parents_of(g[t])[k]) < t && reaches(
            g,
            parents_of(g[t])[k] as int,
            v,
        ))
}

/// The provenance table: every register ever made, in order of creation,
/// together with the number of wires handed out so far.
pub struct OpBuilder {
    registers: Vec<Register>,
    wires: u64,
}

impl View for OpBuilder {
    type V = Seq<Register>;

    closed spec fn view(&self) -> Seq<Register> {
        self.registers@
    }
}

impl OpBuilder {
    /// The number of wires handed out so far.
    pub closed spec fn wire_count(&self) -> u64 {
        self.wires
    }

    /// The table is well formed.
    pub open spec fn wf(&self) -> bool {
        table_wf(self@)
    }

    /// An empty table.
    pub fn new() -> (b: OpBuilder)
        ensures
            b.wf(),
            b@ == Seq::<Register>::empty(),
            b.wire_count() == 0,
    {
        OpBuilder { registers: Vec::new(), wires: 0 }
    }

    /// The table has no more registers than a vector can hold.
    pub proof fn lemma_len_bounded(&self)
        ensures
            self@.len() <= usize::MAX,
    {
        assert(self.registers.len() == self.registers@.len());
    }

    /// The number of registers in the table.
    pub fn len(&self) -> (n: usize)
        ensures
            n == self@.len(),
    {
        self.registers.len()
    }

    /// The register with identifier `id`.
    pub fn get(&self, id: usize) -> (r: &Register)
        requires
            id < self@.len(),
        ensures
            *r == self@[id as int],
    {
        &self.registers[id]
    }

    /// The number of wires handed out so far.
    pub fn wires(&self) -> (n: u64)
        ensures
            n == self.wire_count(),
    {
        self.wires
    }

    /// Adds a register with these wires and this parent to the table.
    fn push_node(&mut self, indices: Vec<u64>, parent: Option<Parent>) -> (id: usize)
        requires
            old(self).wf(),
            forall|k: int|
                0 <= k < parents_of(Register { id: 0, indices, parent }).len() ==> (
                #[trigger] parents_of(Register { id: 0, indices, parent })[k]) < old(self)@.len(),
        ensures
            final(self).wf(),
            id == old(self)@.len(),
            final(self).wire_count() == old(self).wire_count(),
            final(self)@ == old(self)@.push(Register { id, indices, parent }),
            appended(old(self)@, final(self)@, seq![(Register { id, indices, parent })@]),
    {
        let id = self.registers.len();
        let node = Register { id, indices, parent };
        proof {
            assert(parents_of(node) == parents_of(Register { id: 0, indices, parent }));
            assert(node_wf(node, id as int));
        }
        self.registers.push(node);
        proof {
            assert(self@.take(old(self)@.len() as int) == old(self)@);
            assert forall|i: int| 0 <= i < self@.len() implies node_wf(#[trigger] self@[i], i) by {
                if i < old(self)@.len() {
                    assert(node_wf(old(self)@[i], i));
                }
            }
        }
        id
    }

    /// A new register of `n` fresh wires.
    pub fn r(&mut self, n: u64) -> (id: usize)
        requires
            old(self).wf(),
            old(self).wire_count() + n <= u64::MAX,
        ensures
            final(self).wf(),
            id == old(self)@.len(),
            final(self).wire_count() == old(self).wire_count() + n,
            appended(
                old(self)@,
                final(self)@,
                seq![
                    RegisterView {
                        id,
                        indices: Seq::new(n as nat, |i: int| (old(self).wire_count() + i) as u64),
                        parent: None,
                    },
                ],
            ),
    {
        let base = self.wires;
        let mut indices: Vec<u64> = Vec::new();
        let mut i: u64 = 0;
        while i < n
            invariant
                base + n <= u64::MAX,
                i <= n,
                indices@.len() == i,
                forall|j: int| 0 <= j < i ==> indices@[j] == base + j,
            decreases n - i,
        {
            indices.push(base + i);
            i = i + 1;
        }
        proof {
            assert(indices@ == Seq::new(n as nat, |i: int| (base + i) as u64));
        }
        let id = self.push_node(indices, None);
        self.wires = base + n;
        id
    }

    /// A register made of the listed registers, which it consumes.
    pub fn merge(&mut self, rs: Vec<usize>) -> (id: usize)
        requires
            old(self).wf(),
            forall|i: int| 0 <= i < rs@.len() ==> (#[trigger] rs@[i]) < old(self)@.len(),
        ensures
            final(self).wf(),
            id == old(self)@.len(),
            final(self).wire_count() == old(self).wire_count(),
            appended(
                old(self)@,
                final(self)@,
                seq![
                    RegisterView {
                        id,
                        indices: joined_indices(old(self)@, rs@),
                        parent: Some(ParentView::Owned(rs@, None)),
                    },
                ],
            ),
    {
        let mut indices: Vec<u64> = Vec::new();
        let mut i: usize = 0;
        while i < rs.len()
            invariant
                i <= rs@.len(),
                forall|i: int| 0 <= i < rs@.len() ==> (#[trigger] rs@[i]) < self@.len(),
                indices@ == joined_indices(self@, rs@.take(i as int)),
            decreases rs.len() - i,
        {
            let part = &self.registers[rs[i]].indices;
            let ghost before = indices@;
            let mut j: usize = 0;
            while j < part.len()
                invariant
                    j <= part@.len(),
                    indices@ == before + part@.take(j as int),
                decreases part.len() - j,
            {
                indices.push(part[j]);
                proof {
                    assert(part@.take(j as int).push(part@[j as int]) == part@.take(j as int + 1));
                }
                j = j + 1;
            }
            proof {
                assert(part@.take(part@.len() as int) == part@);
                assert(rs@.take(i as int + 1).drop_last() == rs@.take(i as int));
            }
            i = i + 1;
        }
        proof {
            assert(rs@.take(rs@.len() as int) == rs@);
        }
        self.push_node(indices, Some(Parent::Owned(rs, None)))
    }

    /// One alias of register `r` for each of its wires, in the order of the
    /// wires.
    pub fn split_all(&mut self, r: usize) -> (ids: Vec<usize>)
        requires
            old(self).wf(),
            r < old(self)@.len(),
        ensures
            final(self).wf(),
            final(self).wire_count() == old(self).wire_count(),
            ids@ == Seq::new(
                old(self)@[r as int].indices@.len(),
                |j: int| (old(self)@.len() + j) as usize,
            ),
            appended(
                old(self)@,
                final(self)@,
                Seq::new(
                    old(self)@[r as int].indices@.len(),
                    |j: int|
                        RegisterView {
                            id: (old(self)@.len() + j) as usize,
                            indices: seq![old(self)@[r as int].indices@[j]],
                            parent: Some(ParentView::Shared(r)),
                        },
                ),
            ),
    {
        let count = self.registers[r].indices.len();
        let ghost wires = self@[r as int].indices@;
        let mut ids: Vec<usize> = Vec::new();
        let mut j: usize = 0;
        while j < count
            invariant
                self.wf(),
                r < old(self)@.len(),
                count == wires.len(),
                wires == old(self)@[r as int].indices@,
                self.wire_count() == old(self).wire_count(),
                j <= count,
                self@.len() == old(self)@.len() + j,
                self@.take(old(self)@.len() as int) == old(self)@,
                ids@.len() == j,
                forall|i: int| 0 <= i < j ==> ids@[i] == old(self)@.len() + i,
                forall|i: int|
                    0 <= i < j ==> (#[trigger] self@[old(self)@.len() + i])@ == (RegisterView {
                        id: (old(self)@.len() + i) as usize,
                        indices: seq![wires[i]],
                        parent: Some(ParentView::Shared(r)),
                    }),
            decreases count - j,
        {
            let ghost table = self@;
            assert(self@[r as int] == old(self)@[r as int]) by {
                assert(self@.take(old(self)@.len() as int)[r as int] == self@[r as int]);
            }
            let mut one: Vec<u64> = Vec::new();
            one.push(self.registers[r].indices[j]);
            proof {
                assert(one@ == seq![wires[j as int]]);
            }
            let id = self.push_node(one, Some(Parent::Shared(r)));
            ids.push(id);
            proof {
                assert(self@.take(old(self)@.len() as int) == old(self)@) by {
                    assert(self@.take(table.len() as int) == table);
                    assert(self@.take(old(self)@.len() as int) == table.take(
                        old(self)@.len() as int,
                    ));
                }
                assert forall|i: int| 0 <= i < j + 1 implies (#[trigger] self@[old(self)@.len()
                    + i])@ == (RegisterView {
                    id: (old(self)@.len() + i) as usize,
                    indices: seq![wires[i]],
                    parent: Some(ParentView::Shared(r)),
                }) by {
                    if i < j {
                        assert(self@[old(self)@.len() + i] == table[old(self)@.len() + i]);
                    }
                }
            }
            j = j + 1;
        }
        proof {
            assert(ids@ == Seq::new(wires.len(), |j: int| (old(self)@.len() + j) as usize));
        }
        ids
    }

    /// Applies the matrix `data`, under the name `name`, to the wires of
    /// register `r`, which the new register consumes.
    pub fn mat(&mut self, name: &str, r: usize, data: MatrixData) -> (id: usize)
        requires
            old(self).wf(),
            r < old(self)@.len(),
        ensures
            final(self).wf(),
            id == old(self)@.len(),
            final(self).wire_count() == old(self).wire_count(),
            appended(old(self)@, final(self)@, seq![applied_node(old(self)@, r, name@, data@)]),
    {
        let indices = copy_wires(&self.registers[r].indices);
        let targets = copy_wires(&self.registers[r].indices);
        let mut parents: Vec<usize> = Vec::new();
        parents.push(r);
        let op = QubitOp {
            name: String::from_str(name),
            controls: Vec::new(),
            indices: targets,
            data,
        };
        self.push_node(indices, Some(Parent::Owned(parents, Some(op))))
    }

    /// Exchanges the two states of each wire of register `r`.
    pub fn not(&mut self, r: usize) -> (id: usize)
        requires
            old(self).wf(),
            r < old(self)@.len(),
        ensures
            final(self).wf(),
            id == old(self)@.len(),
            final(self).wire_count() == old(self).wire_count(),
            appended(old(self)@, final(self)@, seq![applied_node(old(self)@, r, "not"@, not_matrix())]),
    {
        self.mat("not", r, MatrixData::not())
    }

    /// Applies the Pauli matrix X to each wire of register `r`.
    pub fn x(&mut self, r: usize) -> (id: usize)
        requires
            old(self).wf(),
            r < old(self)@.len(),
        ensures
            final(self).wf(),
            id == old(self)@.len(),
            final(self).wire_count() == old(self).wire_count(),
            appended(old(self)@, final(self)@, seq![applied_node(old(self)@, r, "x"@, not_matrix())]),
    {
        self.mat("x", r, MatrixData::not())
    }

    /// Applies the Pauli matrix Y to each wire of register `r`.
    pub fn y(&mut self, r: usize) -> (id: usize)
        requires
            old(self).wf(),
            r < old(self)@.len(),
        ensures
            final(self).wf(),
            id == old(self)@.len(),
            final(self).wire_count() == old(self).wire_count(),
            appended(old(self)@, final(self)@, seq![applied_node(old(self)@, r, "y"@, y_matrix())]),
    {
        self.mat("y", r, MatrixData::y())
    }

    /// Applies the Pauli matrix Z to each wire of register `r`.
    pub fn z(&mut self, r: usize) -> (id: usize)
        requires
            old(self).wf(),
            r < old(self)@.len(),
        ensures
            final(self).wf(),
            id == old(self)@.len(),
            final(self).wire_count() == old(self).wire_count(),
            appended(old(self)@, final(self)@, seq![applied_node(old(self)@, r, "z"@, z_matrix())]),
    {
        self.mat("z", r, MatrixData::z())
    }

    /// Applies the Hadamard matrix to each wire of register `r`.
    pub fn hadamard(&mut self, r: usize) -> (id: usize)
        requires
            old(self).wf(),
            r < old(self)@.len(),
        ensures
            final(self).wf(),
            id == old(self)@.len(),
            final(self).wire_count() == old(self).wire_count(),
            appended(old(self)@, final(self)@, seq![applied_node(old(self)@, r, "hadamard"@, hadamard_matrix())]),
    {
        self.mat("hadamard", r, MatrixData::hadamard())
    }

    /// Splits register `r` after its first `k` wires into two aliases.
    pub fn split_at(&mut self, r: usize, k: usize) -> (halves: (usize, usize))
        requires
            old(self).wf(),
            r < old(self)@.len(),
            k <= old(self)@[r as int].indices@.len(),
        ensures
            final(self).wf(),
            final(self).wire_count() == old(self).wire_count(),
            appended(old(self)@, final(self)@, split_nodes(old(self)@, r, k as int)),
            halves.0 == old(self)@.len(),
            halves.1 == old(self)@.len() + 1,
    {
        let ghost g0 = self@;
        let ghost wires = self@[r as int].indices@;
        let count = self.registers[r].indices.len();
        let mut first: Vec<u64> = Vec::new();
        let mut second: Vec<u64> = Vec::new();
        let mut i: usize = 0;
        while i < count
            invariant
                self@ == g0,
                r < g0.len(),
                wires == g0[r as int].indices@,
                count == wires.len(),
                k <= count,
                i <= count,
                first@ == wires.take(if i < k {
                    i as int
                } else {
                    k as int
                }),
                second@ == wires.subrange(k as int, if i < k {
                    k as int
                } else {
                    i as int
                }),
            decreases count - i,
        {
            let wire = self.registers[r].indices[i];
            if i < k {
                first.push(wire);
                proof {
                    assert(wires.take(i as int).push(wires[i as int]) == wires.take(i as int + 1));
                }
            } else {
                second.push(wire);
                proof {
                    assert(wires.subrange(k as int, i as int).push(wires[i as int])
                        == wires.subrange(k as int, i as int + 1));
                }
            }
            i = i + 1;
        }
        proof {
            assert(wires.subrange(k as int, count as int) == wires.skip(k as int));
        }
        let a = self.push_node(first, Some(Parent::Shared(r)));
        let ghost g1 = self@;
        let b = self.push_node(second, Some(Parent::Shared(r)));
        proof {
            let nodes = split_nodes(g0, r, k as int);
            lemma_appended_twice(g0, g1, self@, seq![g1[g0.len() as int]@], seq![self@.last()@]);
            assert(seq![g1[g0.len() as int]@] + seq![self@.last()@] == nodes);
        }
        (a, b)
    }

    /// Exchanges the registers `ra` and `rb`, which must have the same number
    /// of wires: afterwards the first register returned holds, on the wires
    /// of `ra`, what `rb` held, and the second, on the wires of `rb`, what
    /// `ra` held.
    pub fn swap(&mut self, ra: usize, rb: usize) -> (out: Result<(usize, usize), CircuitError>)
        requires
            old(self).wf(),
            ra < old(self)@.len(),
            rb < old(self)@.len(),
        ensures
            final(self).wf(),
            final(self).wire_count() == old(self).wire_count(),
            match out {
                Ok(pair) => {
                    &&& old(self)@[ra as int].indices@.len() == old(self)@[rb as int].indices@.len()
                    &&& swap_fits(old(self)@[ra as int].indices@.len())
                    &&& appended(old(self)@, final(self)@, swap_nodes(old(self)@, ra, rb))
                    &&& pair.0 == old(self)@.len() + 2
                    &&& pair.1 == old(self)@.len() + 3
                },
                Err(e) => {
                    &&& final(self)@ == old(self)@
                    &&& if old(self)@[ra as int].indices@.len() != old(
                        self,
                    )@[rb as int].indices@.len() {
                        e == CircuitError::RegisterSizes
                    } else {
                        e == CircuitError::TooManyWires && !swap_fits(
                            old(self)@[ra as int].indices@.len(),
                        )
                    }
                },
            },
    {
        let ghost g0 = self@;
        let k = self.registers[ra].indices.len();
        if self.registers[rb].indices.len() != k {
            return Err(CircuitError::RegisterSizes);
        }
        let data = match MatrixData::swap(k) {
            Some(data) => data,
            None => {
                return Err(CircuitError::TooManyWires);
            },
        };
        let mut both: Vec<usize> = Vec::new();
        both.push(ra);
        both.push(rb);
        proof {
            lemma_joined_pair(g0, ra, rb);
            assert(both@ == seq![ra, rb]);
        }
        let merged = self.merge(both);
        let ghost g1 = self@;
        let exchanged = self.mat("swap", merged, data);
        let ghost g2 = self@;
        proof {
            let l0 = g0.len() as int;
            let l1 = g1.len() as int;
            assert(g1[l0 + 0]@.indices == g0[ra as int].indices@ + g0[rb as int].indices@);
            assert(g2[l1 + 0]@.indices == g1[merged as int].indices@);
        }
        let halves = self.split_at(exchanged, k);
        proof {
            let a = g0[ra as int].indices@;
            let b = g0[rb as int].indices@;
            let n1 = seq![g1[g0.len() as int]@];
            let n2 = seq![g2[g1.len() as int]@];
            let n3 = split_nodes(g2, exchanged, k as int);
            lemma_appended_twice(g0, g1, g2, n1, n2);
            lemma_appended_twice(g0, g2, self@, n1 + n2, n3);
            assert((a + b).take(k as int) == a);
            assert((a + b).skip(k as int) == b);
            assert(n1 + n2 + n3 == swap_nodes(g0, ra, rb));
        }
        Ok(halves)
    }

    /// Takes register `cr` as the control of the matrices that are applied
    /// through the context.
    pub fn with_condition(&self, cr: usize) -> (context: ConditionalContext)
        requires
            cr < self@.len(),
        ensures
            context.control() == cr,
    {
        ConditionalContext { control: cr }
    }
}

/// Holds the register that controls what is applied through it.
pub struct ConditionalContext {
    control: usize,
}

impl ConditionalContext {
    /// The register that controls, as it stands now.
    pub closed spec fn control(&self) -> usize {
        self.control
    }

    /// Applies the matrix `data`, under the name `name`, to the wires of
    /// register `r` on those basis states in which every wire of the control
    /// register is set. Both registers are consumed; the result and the new
    /// control register are aliases of the register that carries the
    /// operation.
    pub fn mat(&mut self, b: &mut OpBuilder, name: &str, r: usize, data: MatrixData) -> (out: usize)
        requires
            old(b).wf(),
            old(self).control() < old(b)@.len(),
            r < old(b)@.len(),
        ensures
            final(b).wf(),
            final(b).wire_count() == old(b).wire_count(),
            appended(
                old(b)@,
                final(b)@,
                controlled_nodes(old(b)@, old(self).control(), r, name@, data@),
            ),
            final(self).control() == old(b)@.len() + 1,
            out == old(b)@.len() + 2,
    {
        let cr = self.control;
        let ghost g0 = b@;
        let controls = copy_wires(&b.get(cr).indices);
        let targets = copy_wires(&b.get(r).indices);
        let mut all = copy_wires(&b.get(cr).indices);
        let mut i: usize = 0;
        while i < targets.len()
            invariant
                i <= targets@.len(),
                all@ == controls@ + targets@.take(i as int),
            decreases targets.len() - i,
        {
            all.push(targets[i]);
            proof {
                assert(targets@.take(i as int).push(targets@[i as int]) == targets@.take(
                    i as int + 1,
                ));
            }
            i = i + 1;
        }
        proof {
            assert(targets@.take(targets@.len() as int) == targets@);
        }
        let control_wires = copy_wires(&controls);
        let target_wires = copy_wires(&targets);
        let mut parents: Vec<usize> = Vec::new();
        parents.push(cr);
        parents.push(r);
        proof {
            assert(parents@ == seq![cr, r]);
        }
        let op = QubitOp {
            name: String::from_str("C(").concat(name).concat(")"),
            controls,
            indices: targets,
            data,
        };
        let merged = b.push_node(all, Some(Parent::Owned(parents, Some(op))));
        let ghost g1 = b@;
        let new_control = b.push_node(control_wires, Some(Parent::Shared(merged)));
        let ghost g2 = b@;
        let out = b.push_node(target_wires, Some(Parent::Shared(merged)));
        self.control = new_control;
        proof {
            let nodes = controlled_nodes(g0, cr, r, name@, data@);
            assert(b@.take(g0.len() as int) == g0) by {
                assert(g2.take(g0.len() as int) == g1.take(g0.len() as int));
                assert(b@.take(g0.len() as int) == g2.take(g0.len() as int));
            }
            let k = g0.len() as int;
            assert(b@[k + 0] == g1[k]);
            assert(b@[k + 1] == g2[k + 1]);
            assert(b@[k + 0]@ == nodes[0]);
            assert(b@[k + 1]@ == nodes[1]);
            assert(b@[k + 2]@ == nodes[2]);
        }
        out
    }

    /// Ends the context and hands back the control register.
    pub fn release_register(self) -> (cr: usize)
        ensures
            cr == self.control(),
    {
        self.control
    }
}

} // verus!
