use crate::pipeline::QuantumState;
use crate::matrix::{MatrixData, MatrixView};
use crate::qubits::{OpView, QubitOp};
use vstd::prelude::*;

verus! {

/// Whether bit `pos` of `word` is set.
pub open spec fn bit_at(word: u64, pos: u64) -> bool {
    (word >> pos) & 1 == 1
}

/// `word` with bit `pos` set to `bit`.
pub open spec fn with_bit(word: u64, pos: u64, bit: bool) -> u64 {
    if bit {
        word | (1u64 << pos)
    } else {
        word & !(1u64 << pos)
    }
}

/// The bit of an amplitude index that stands for wire `w` of `n`: wire 0 is
/// the most significant of the `n` bits.
pub open spec fn wire_pos(n: u64, w: u64) -> u64 {
    (n - 1 - w) as u64
}

/// Every listed wire is one of the `n` wires.
pub open spec fn wires_within(n: u64, wires: Seq<u64>) -> bool {
    forall|i: int| 0 <= i < wires.len() ==> (#[trigger] wires[i]) < n
}

/// The number that the bits of `row` spell on the listed wires, the first
/// listed wire being its most significant bit.
pub open spec fn sub_index(n: u64, wires: Seq<u64>, row: u64) -> nat
    decreases wires.len(),
{
    if wires.len() == 0 {
        0
    } else {
        2 * sub_index(n, wires.drop_last(), row) + if bit_at(row, wire_pos(n, wires.last())) {
            1nat
        } else {
            0nat
        }
    }
}

/// `row` with the bits of the listed wires replaced by the bits of `sub`, the
/// first listed wire taking its most significant bit.
pub open spec fn place_sub(n: u64, wires: Seq<u64>, sub: nat, row: u64) -> u64
    decreases wires.len(),
{
    if wires.len() == 0 {
        row
    } else {
        with_bit(
            place_sub(n, wires.drop_last(), sub / 2, row),
            wire_pos(n, wires.last()),
            sub % 2 == 1,
        )
    }
}

/// Every listed wire is set in `row`.
pub open spec fn wires_set(n: u64, wires: Seq<u64>, row: u64) -> bool {
    forall|i: int| 0 <= i < wires.len() ==> bit_at(row, wire_pos(n, #[trigger] wires[i]))
}

/// Placing on the listed wires what `row` itself spells on them gives `row`
/// back: each amplitude is its own source under the column of its own matrix
/// row.
pub proof fn lemma_place_own_sub(n: u64, wires: Seq<u64>, row: u64)
    ensures
        place_sub(n, wires, sub_index(n, wires, row), row) == row,
    decreases wires.len(),
{
    if wires.len() > 0 {
        lemma_place_own_sub(n, wires.drop_last(), row);
        let pos = wire_pos(n, wires.last());
        let rest = sub_index(n, wires.drop_last(), row);
        let all = sub_index(n, wires, row);
        assert(all / 2 == rest && (all % 2 == 1) == bit_at(row, pos));
        assert(with_bit(row, pos, bit_at(row, pos)) == row) by (bit_vector);
    }
}

/// No wire is listed twice.
pub open spec fn wires_distinct(wires: Seq<u64>) -> bool {
    forall|i: int, j: int| 0 <= i < j < wires.len() ==> wires[i] != wires[j]
}

/// What a word spells on the listed wires does not depend on the bit of a
/// wire that is not listed.
proof fn lemma_sub_index_ignores(n: u64, wires: Seq<u64>, word: u64, w: u64, bit: bool)
    requires
        n <= 64,
        w < n,
        wires_within(n, wires),
        forall|i: int| 0 <= i < wires.len() ==> wires[i] != w,
    ensures
        sub_index(n, wires, with_bit(word, wire_pos(n, w), bit)) == sub_index(n, wires, word),
    decreases wires.len(),
{
    if wires.len() > 0 {
        lemma_sub_index_ignores(n, wires.drop_last(), word, w, bit);
        let p = wire_pos(n, w);
        let q = wire_pos(n, wires.last());
        assert(wires[wires.len() - 1] != w);
        assert(bit_at(with_bit(word, p, bit), q) == bit_at(word, q)) by (bit_vector)
            requires
                p < 64,
                q < 64,
                p != q,
        ;
    }
}

/// The source of column `sub` spells `sub` on the listed wires: under a
/// matrix on distinct wires, the columns of a row read amplitudes that differ
/// from the row on those wires only and cover every assignment of them.
pub proof fn lemma_sub_of_placed(n: u64, wires: Seq<u64>, sub: nat, row: u64)
    requires
        n <= 64,
        wires.len() < 64,
        wires_within(n, wires),
        wires_distinct(wires),
        sub < (1u64 << (wires.len() as u64)),
    ensures
        sub_index(n, wires, place_sub(n, wires, sub, row)) == sub,
    decreases wires.len(),
{
    let k = wires.len() as u64;
    if wires.len() > 0 {
        let rest = wires.drop_last();
        let s = sub as u64;
        assert(s / 2 < (1u64 << ((k - 1) as u64))) by (bit_vector)
            requires
                0 < k < 64,
                s < (1u64 << k),
        ;
        lemma_sub_of_placed(n, rest, sub / 2, row);
        let inner = place_sub(n, rest, sub / 2, row);
        let p = wire_pos(n, wires.last());
        let bit = sub % 2 == 1;
        assert forall|i: int| 0 <= i < rest.len() implies rest[i] != wires.last() by {
            assert(wires[i] != wires[wires.len() - 1]);
        }
        lemma_sub_index_ignores(n, rest, inner, wires.last(), bit);
        assert(bit_at(with_bit(inner, p, bit), p) == bit) by (bit_vector)
            requires
                p < 64,
        ;
    } else {
        assert(sub < 1) by {
            assert(1u64 << 0u64 == 1) by (bit_vector);
        }
    }
}

/// Reads bit `pos` of `word`.
pub fn get_bit(word: u64, pos: u64) -> (bit: bool)
    requires
        pos < 64,
    ensures
        bit == bit_at(word, pos),
{
    (word >> pos) & 1 == 1
}

/// Sets bit `pos` of `word` to `bit`.
pub fn set_bit(word: u64, pos: u64, bit: bool) -> (out: u64)
    requires
        pos < 64,
    ensures
        out == with_bit(word, pos, bit),
{
    if bit {
        word | (1u64 << pos)
    } else {
        word & !(1u64 << pos)
    }
}

/// Setting a bit below bit `n` keeps a word below `2^n`.
proof fn lemma_with_bit_bound(word: u64, pos: u64, bit: bool, n: u64)
    requires
        n < 64,
        pos < n,
        word < (1u64 << n),
    ensures
        with_bit(word, pos, bit) < (1u64 << n),
{
    assert((word | (1u64 << pos)) < (1u64 << n)) by (bit_vector)
        requires
            n < 64,
            pos < n,
            word < (1u64 << n),
    ;
    assert((word & !(1u64 << pos)) < (1u64 << n)) by (bit_vector)
        requires
            n < 64,
            pos < n,
            word < (1u64 << n),
    ;
}

/// Extracts from the amplitude index `row` the number that its bits spell on
/// the listed wires: the row of the matrix that `row` falls under.
pub fn full_to_sub(n: u64, wires: &Vec<u64>, row: u64) -> (sub: u64)
    requires
        n <= 64,
        wires@.len() < 64,
        wires_within(n, wires@),
    ensures
        sub == sub_index(n, wires@, row),
        sub < (1u64 << (wires@.len() as u64)),
{
    let mut sub: u64 = 0;
    let mut i: usize = 0;
    proof {
        assert(wires@.take(0).len() == 0);
        assert(0u64 < (1u64 << 0u64)) by (bit_vector);
    }
    while i < wires.len()
        invariant
            n <= 64,
            wires@.len() < 64,
            wires_within(n, wires@),
            i <= wires@.len(),
            sub == sub_index(n, wires@.take(i as int), row),
            sub < (1u64 << (i as u64)),
        decreases wires.len() - i,
    {
        assert(wires@[i as int] < n);
        let bit = get_bit(row, n - 1 - wires[i]);
        proof {
            let done = wires@.take(i as int + 1);
            assert(done.drop_last() == wires@.take(i as int));
            assert(done.last() == wires@[i as int]);
            let iu = i as u64;
            assert(2 * sub + 1 < (1u64 << ((iu + 1) as u64)) && 2 * sub + 1 <= u64::MAX) by (bit_vector)
                requires
                    iu < 63,
                    sub < (1u64 << iu),
            ;
        }
        sub = 2 * sub + if bit {
            1
        } else {
            0
        };
        i = i + 1;
    }
    proof {
        assert(wires@.take(wires@.len() as int) == wires@);
    }
    sub
}

/// Replaces, in the amplitude index `row`, the bits of the listed wires by
/// the bits of `sub`: the index of the amplitude that column `sub` of the
/// matrix reads.
pub fn sub_to_full(n: u64, wires: &Vec<u64>, sub: u64, row: u64) -> (full: u64)
    requires
        n < 64,
        wires@.len() < 64,
        wires_within(n, wires@),
        row < (1u64 << n),
    ensures
        full == place_sub(n, wires@, sub as nat, row),
        full < (1u64 << n),
{
    let k = wires.len();
    let mut full: u64 = row;
    let mut i: usize = 0;
    proof {
        assert(wires@.take(0).len() == 0);
    }
    while i < k
        invariant
            n < 64,
            k == wires@.len(),
            k < 64,
            wires_within(n, wires@),
            i <= k,
            full == place_sub(n, wires@.take(i as int), (sub >> ((k - i) as u64)) as nat, row),
            full < (1u64 << n),
        decreases k - i,
    {
        let shift: u64 = (k - i - 1) as u64;
        let bit = get_bit(sub, shift);
        assert(wires@[i as int] < n);
        let pos = n - 1 - wires[i];
        proof {
            let done = wires@.take(i as int + 1);
            assert(done.drop_last() == wires@.take(i as int));
            assert(done.last() == wires@[i as int]);
            let s1 = sub >> shift;
            let s2 = sub >> ((shift + 1) as u64);
            assert(s1 / 2 == s2 && (s1 % 2 == 1) == ((sub >> shift) & 1 == 1)) by (bit_vector)
                requires
                    shift < 63,
                    s1 == sub >> shift,
                    s2 == sub >> ((shift + 1) as u64),
            ;
            lemma_with_bit_bound(full, pos, bit, n);
        }
        full = set_bit(full, pos, bit);
        i = i + 1;
    }
    proof {
        assert(wires@.take(k as int) == wires@);
        assert(sub >> 0u64 == sub) by (bit_vector);
    }
    full
}

/// Whether every listed wire is set in the amplitude index `row`.
pub fn all_set(n: u64, wires: &Vec<u64>, row: u64) -> (set: bool)
    requires
        n <= 64,
        wires_within(n, wires@),
    ensures
        set == wires_set(n, wires@, row),
{
    let mut i: usize = 0;
    while i < wires.len()
        invariant
            n <= 64,
            wires_within(n, wires@),
            i <= wires@.len(),
            forall|j: int| 0 <= j < i ==> bit_at(row, wire_pos(n, #[trigger] wires@[j])),
        decreases wires.len() - i,
    {
        assert(wires@[i as int] < n);
        if !get_bit(row, n - 1 - wires[i]) {
            return false;
        }
        i = i + 1;
    }
    true
}

/// One product of a row's sum: the matrix entry with index `entry` times the
/// amplitude with index `source`.
#[derive(Clone, Copy, Debug, PartialEq, Eq)]
pub struct Term {
    pub entry: usize,
    pub source: usize,
}

/// The numbers that a dense state holds. The library decides which entries
/// multiply which amplitudes; the arithmetic is the amplitude type's own.
pub trait Amplitude: Copy {
    /// Whether `sum` may be the sum of the products that `terms` lists, over
    /// the matrix `data` and the amplitudes `input`. A type that says nothing
    /// of its arithmetic allows every outcome.
    open spec fn combines(data: MatrixView, terms: Seq<Term>, input: Seq<Self>, sum: Self) -> bool {
        true
    }

    /// The sum of the products that `terms` lists.
    fn combine(data: &MatrixData, terms: &Vec<Term>, input: &Vec<Self>) -> (sum: Self)
        requires
            forall|i: int|
                0 <= i < terms@.len() ==> (#[trigger] terms@[i]).entry < data@.len()
                    && terms@[i].source < input@.len(),
        ensures
            Self::combines(data@, terms@, input@, sum),
    ;
}

/// Some listed product has an entry other than zero and an amplitude that is
/// set.
pub open spec fn some_term_set(data: MatrixView, terms: Seq<Term>, input: Seq<bool>) -> bool {
    exists|i: int|
        0 <= i < terms.len() && data.nonzero((#[trigger] terms[i]).entry as int)
            && input[terms[i].source as int]
}

/// The support of a state: for each assignment of the wires, whether it can
/// carry an amplitude at all. A row is set where some product of its sum has
/// an entry other than zero and an amplitude that is set; products that
/// cancel are not seen.
impl Amplitude for bool {
    open spec fn combines(data: MatrixView, terms: Seq<Term>, input: Seq<bool>, sum: bool) -> bool {
        sum == some_term_set(data, terms, input)
    }

    fn combine(data: &MatrixData, terms: &Vec<Term>, input: &Vec<bool>) -> (sum: bool) {
        let mut i: usize = 0;
        while i < terms.len()
            invariant
                i <= terms@.len(),
                forall|j: int|
                    0 <= j < terms@.len() ==> (#[trigger] terms@[j]).entry < data@.len()
                        && terms@[j].source < input@.len(),
                forall|j: int|
                    0 <= j < i ==> !(data@.nonzero((#[trigger] terms@[j]).entry as int)
                        && input@[terms@[j].source as int]),
            decreases terms.len() - i,
        {
            let t = terms[i];
            if data.is_nonzero(t.entry) && input[t.source] {
                return true;
            }
            i = i + 1;
        }
        false
    }
}

/// The products whose sum is the new amplitude of `row` under a matrix on
/// the listed wires: one for each column of the matrix row that `row` falls
/// under.
pub open spec fn row_terms(n: u64, wires: Seq<u64>, row: u64) -> Seq<Term> {
    let dim = 1u64 << (wires.len() as u64);
    Seq::new(
        dim as nat,
        |c: int|
            Term {
                entry: (sub_index(n, wires, row) * dim + c) as usize,
                source: place_sub(n, wires, c as nat, row) as usize,
            },
    )
}

/// A matrix of `entries` entries is square over the listed wires.
pub open spec fn matrix_fits(wires: Seq<u64>, entries: nat) -> bool {
    &&& wires.len() < 32
    &&& entries == (1u64 << (wires.len() as u64)) * (1u64 << (wires.len() as u64))
}

/// Writes into `terms` the products whose sum is the new amplitude of `row`.
pub fn fill_terms(terms: &mut Vec<Term>, n: u64, wires: &Vec<u64>, row: u64)
    requires
        n < 64,
        wires_within(n, wires@),
        wires@.len() < 32,
        row < (1u64 << n),
        (1u64 << n) <= usize::MAX,
        (1u64 << (wires@.len() as u64)) * (1u64 << (wires@.len() as u64)) <= usize::MAX,
    ensures
        final(terms)@ == row_terms(n, wires@, row),
        forall|i: int|
            0 <= i < final(terms)@.len() ==> (#[trigger] final(terms)@[i]).entry < (1u64 << (
            wires@.len() as u64)) * (1u64 << (wires@.len() as u64)) && final(terms)@[i].source < (1u64
                << n),
{
    let k = wires.len() as u64;
    let dim: u64 = 1u64 << k;
    let matrow = full_to_sub(n, wires, row);
    terms.clear();
    let mut c: u64 = 0;
    while c < dim
        invariant
            n < 64,
            wires_within(n, wires@),
            k == wires@.len(),
            k < 32,
            dim == 1u64 << k,
            row < (1u64 << n),
            (1u64 << n) <= usize::MAX,
            dim * dim <= usize::MAX,
            matrow == sub_index(n, wires@, row),
            matrow < dim,
            c <= dim,
            terms@.len() == c,
            forall|i: int|
                0 <= i < c ==> terms@[i] == row_terms(n, wires@, row)[i] && (#[trigger] terms@[i]).entry
                    < dim * dim && terms@[i].source < (1u64 << n),
        decreases dim - c,
    {
        let source = sub_to_full(n, wires, c, row);
        proof {
            assert(matrow * dim + c < dim * dim) by (nonlinear_arith)
                requires
                    matrow < dim,
                    c < dim,
            ;
        }
        let entry = matrow * dim + c;
        terms.push(Term { entry: entry as usize, source: source as usize });
        c = c + 1;
    }
    proof {
        assert(terms@ =~= row_terms(n, wires@, row));
    }
}

/// Whether `out` may be the new amplitude of `row`: where every control wire
/// is set in `row`, the sum of the row's products; elsewhere the old
/// amplitude of `row`.
pub open spec fn row_applied<A: Amplitude>(
    n: u64,
    controls: Seq<u64>,
    wires: Seq<u64>,
    data: MatrixView,
    input: Seq<A>,
    row: u64,
    out: A,
) -> bool {
    if wires_set(n, controls, row) {
        A::combines(data, row_terms(n, wires, row), input, out)
    } else {
        out == input[row as int]
    }
}

/// Whether `output` may hold the amplitudes after one sweep that applies the
/// matrix `data` on the listed wires to `input`, under the controls.
pub open spec fn pass_applied<A: Amplitude>(
    n: u64,
    controls: Seq<u64>,
    wires: Seq<u64>,
    data: MatrixView,
    input: Seq<A>,
    output: Seq<A>,
) -> bool {
    &&& output.len() == input.len()
    &&& forall|row: u64|
        row < input.len() ==> row_applied(
            n,
            controls,
            wires,
            data,
            input,
            row,
            #[trigger] output[row as int],
        )
}

/// Computes the new amplitude of `row` from the amplitudes `input`. `terms`
/// is scratch space.
pub fn row_value<A: Amplitude>(
    n: u64,
    controls: &Vec<u64>,
    wires: &Vec<u64>,
    data: &MatrixData,
    input: &Vec<A>,
    row: usize,
    terms: &mut Vec<Term>,
) -> (out: A)
    requires
        n < 64,
        input@.len() == (1u64 << n),
        row < input@.len(),
        wires_within(n, controls@),
        wires_within(n, wires@),
        matrix_fits(wires@, data@.len()),
    ensures
        row_applied(n, controls@, wires@, data@, input@, row as u64, out),
{
    if all_set(n, controls, row as u64) {
        assert((1u64 << n) <= usize::MAX) by {
            assert(input.len() == input@.len());
        }
        let entries = data.len();
        assert((1u64 << (wires@.len() as u64)) * (1u64 << (wires@.len() as u64)) == entries);
        fill_terms(terms, n, wires, row as u64);
        A::combine(data, terms, input)
    } else {
        input[row]
    }
}

/// A matrix of two rows and two columns over more than one wire stands for
/// that matrix on each of the wires.
pub open spec fn broadcasts(op: OpView) -> bool {
    op.data.len() == 4 && op.indices.len() > 1
}

/// The number of sweeps that `op` takes.
pub open spec fn pass_count(op: OpView) -> nat {
    if broadcasts(op) {
        op.indices.len()
    } else {
        1
    }
}

/// The wires that sweep `j` of `op` applies the matrix to.
pub open spec fn pass_wires(op: OpView, j: int) -> Seq<u64> {
    if broadcasts(op) {
        seq![op.indices[j]]
    } else {
        op.indices
    }
}

/// `op` can be applied to a state of `n` wires: its wires are wires of the
/// state, and its matrix is square over them.
pub open spec fn op_fits(n: u64, op: OpView) -> bool {
    &&& n < 64
    &&& wires_within(n, op.controls)
    &&& wires_within(n, op.indices)
    &&& broadcasts(op) || matrix_fits(op.indices, op.data.len())
}

/// Whether `output` may hold the amplitudes after the first `j` sweeps of
/// `op` over `input`, each sweep reading what the one before it wrote.
pub open spec fn passes_applied<A: Amplitude>(
    n: u64,
    op: OpView,
    input: Seq<A>,
    j: nat,
    output: Seq<A>,
) -> bool
    decreases j,
{
    if j == 0 {
        output == input
    } else {
        exists|mid: Seq<A>|
            #![trigger pass_applied(n, op.controls, pass_wires(op, j - 1), op.data, mid, output)]
            passes_applied(n, op, input, (j - 1) as nat, mid) && pass_applied(
                n,
                op.controls,
                pass_wires(op, j - 1),
                op.data,
                mid,
                output,
            )
    }
}

/// One more sweep extends the sweeps made so far.
proof fn lemma_passes_push<A: Amplitude>(
    n: u64,
    op: OpView,
    input: Seq<A>,
    j: nat,
    mid: Seq<A>,
    output: Seq<A>,
)
    requires
        passes_applied(n, op, input, j, mid),
        pass_applied(n, op.controls, pass_wires(op, j as int), op.data, mid, output),
    ensures
        passes_applied(n, op, input, j + 1, output),
{
    let j1 = j + 1;
    assert(passes_applied(n, op, input, (j1 - 1) as nat, mid) && pass_applied(
        n,
        op.controls,
        pass_wires(op, j1 - 1),
        op.data,
        mid,
        output,
    ));
}

/// Whether `output` may hold the amplitudes after `op` is applied to `input`.
pub open spec fn op_applied<A: Amplitude>(n: u64, op: OpView, input: Seq<A>, output: Seq<A>) -> bool {
    passes_applied(n, op, input, pass_count(op), output)
}

/// Whether every listed wire is one of the `n` wires.
pub fn check_wires(n: u64, wires: &Vec<u64>) -> (within: bool)
    ensures
        within == wires_within(n, wires@),
{
    let mut i: usize = 0;
    while i < wires.len()
        invariant
            i <= wires@.len(),
            forall|j: int| 0 <= j < i ==> (#[trigger] wires@[j]) < n,
        decreases wires.len() - i,
    {
        if wires[i] >= n {
            return false;
        }
        i = i + 1;
    }
    true
}

/// Whether `op` can be applied to a state of `n` wires.
pub fn op_fits_state(n: u64, op: &QubitOp) -> (fits: bool)
    ensures
        fits == op_fits(n, op@),
{
    if n >= 64 || !check_wires(n, &op.controls) || !check_wires(n, &op.indices) {
        return false;
    }
    let k = op.indices.len();
    let entries = op.data.len();
    if entries == 4 && k > 1 {
        return true;
    }
    if k >= 32 {
        return false;
    }
    let dim: u64 = 1u64 << (k as u64);
    proof {
        let ku = k as u64;
        assert((1u64 << ku) * (1u64 << ku) <= 0x4000_0000_0000_0000u64) by (bit_vector)
            requires
                ku < 32,
        ;
    }
    entries as u64 == dim * dim
}

/// The sweeps that `op` takes: for each, the wires that the matrix is applied
/// to.
pub fn pass_plan(op: &QubitOp) -> (plan: Vec<Vec<u64>>)
    ensures
        plan@.len() == pass_count(op@),
        forall|j: int| 0 <= j < plan@.len() ==> (#[trigger] plan@[j])@ == pass_wires(op@, j),
{
    let k = op.indices.len();
    let mut plan: Vec<Vec<u64>> = Vec::new();
    if op.data.len() == 4 && k > 1 {
        let mut j: usize = 0;
        while j < k
            invariant
                broadcasts(op@),
                k == op@.indices.len(),
                j <= k,
                plan@.len() == j,
                forall|i: int| 0 <= i < j ==> (#[trigger] plan@[i])@ == pass_wires(op@, i),
            decreases k - j,
        {
            let mut wire: Vec<u64> = Vec::new();
            wire.push(op.indices[j]);
            proof {
                assert(wire@ == pass_wires(op@, j as int));
            }
            plan.push(wire);
            j = j + 1;
        }
    } else {
        let mut wires: Vec<u64> = Vec::new();
        let mut i: usize = 0;
        while i < k
            invariant
                k == op@.indices.len(),
                i <= k,
                wires@ == op@.indices.take(i as int),
            decreases k - i,
        {
            wires.push(op.indices[i]);
            proof {
                assert(op@.indices.take(i as int).push(op@.indices[i as int]) == op@.indices.take(
                    i as int + 1,
                ));
            }
            i = i + 1;
        }
        proof {
            assert(op@.indices.take(k as int) == op@.indices);
        }
        plan.push(wires);
    }
    plan
}

/// The matrix of an operation that fits a state fits the wires of each of
/// its sweeps.
pub proof fn lemma_pass_fits(n: u64, op: OpView, j: int)
    requires
        op_fits(n, op),
        0 <= j < pass_count(op),
    ensures
        wires_within(n, pass_wires(op, j)),
        matrix_fits(pass_wires(op, j), op.data.len()),
{
    if broadcasts(op) {
        assert(op.indices[j] < n);
        assert((1u64 << 1u64) * (1u64 << 1u64) == 4) by (bit_vector);
    }
}

/// The number of rows in each part where `len` rows are dealt out in `parts`
/// parts.
pub open spec fn chunk_size(len: nat, parts: nat) -> nat {
    if parts == 0 {
        len
    } else if len % parts == 0 {
        len / parts
    } else {
        len / parts + 1
    }
}

/// The first row of part `i` where `len` rows are dealt out in `parts` parts
/// of equal size, the last ones smaller or empty.
pub open spec fn chunk_start(len: nat, parts: nat, i: nat) -> nat {
    if i * chunk_size(len, parts) < len {
        i * chunk_size(len, parts)
    } else {
        len
    }
}

/// The parts follow one another without gap or overlap, from row 0 to the
/// last row: each row falls in exactly one part.
pub proof fn lemma_chunks_partition(len: nat, parts: nat)
    requires
        parts >= 1,
    ensures
        chunk_start(len, parts, 0) == 0,
        chunk_start(len, parts, parts) == len,
        forall|i: nat, j: nat|
            i <= j ==> #[trigger] chunk_start(len, parts, i) <= #[trigger] chunk_start(
                len,
                parts,
                j,
            ) <= len,
{
    let size = chunk_size(len, parts);
    assert(parts * size >= len) by (nonlinear_arith)
        requires
            parts >= 1,
            size == if len % parts == 0 {
                len / parts
            } else {
                len / parts + 1
            },
    ;
    assert forall|i: nat, j: nat| i <= j implies #[trigger] chunk_start(len, parts, i)
        <= #[trigger] chunk_start(len, parts, j) <= len by {
        assert(i * size <= j * size) by (nonlinear_arith)
            requires
                i <= j,
                size >= 0,
        ;
    }
}

/// Row `row` falls in part `i`.
pub open spec fn in_chunk(len: nat, parts: nat, i: nat, row: nat) -> bool {
    i < parts && chunk_start(len, parts, i) <= row < chunk_start(len, parts, i + 1)
}

/// Every row falls in one of the parts.
pub proof fn lemma_row_in_chunk(len: nat, parts: nat, row: nat) -> (i: nat)
    requires
        parts >= 1,
        row < len,
    ensures
        in_chunk(len, parts, i, row),
{
    let size = chunk_size(len, parts);
    assert(parts * size >= len && size >= 1) by (nonlinear_arith)
        requires
            parts >= 1,
            len >= 1,
            size == if len % parts == 0 {
                len / parts
            } else {
                len / parts + 1
            },
    ;
    let i = row / size;
    assert(i * size <= row < (i + 1) * size && (i >= parts ==> i * size >= parts * size)) by (nonlinear_arith)
        requires
            size >= 1,
            i == row / size,
            parts >= 1,
    ;
    i
}

/// A sweep may be made part by part: where each row of each part holds what
/// the sweep asks of that row, the whole holds what the sweep asks, however
/// many parts the rows are dealt out in.
pub proof fn lemma_pass_by_parts<A: Amplitude>(
    n: u64,
    controls: Seq<u64>,
    wires: Seq<u64>,
    data: MatrixView,
    input: Seq<A>,
    output: Seq<A>,
    parts: nat,
)
    requires
        parts >= 1,
        output.len() == input.len(),
        forall|i: nat, row: u64| #[trigger]
            in_chunk(input.len(), parts, i, row as nat) ==> row_applied(
                n,
                controls,
                wires,
                data,
                input,
                row,
                output[row as int],
            ),
    ensures
        pass_applied(n, controls, wires, data, input, output),
{
    assert forall|row: u64| row < input.len() implies row_applied(
        n,
        controls,
        wires,
        data,
        input,
        row,
        #[trigger] output[row as int],
    ) by {
        let i = lemma_row_in_chunk(input.len(), parts, row as nat);
        assert(in_chunk(input.len(), parts, i, row as nat));
    }
}

/// The number of wires above which a sweep is worth dealing out to several
/// workers.
pub const PARALLEL_THRESHOLD: u64 = 20;

/// The rows `bounds.0 .. bounds.1` of part `i` where `len` rows are dealt out
/// in `parts` parts.
pub fn chunk_bounds(len: usize, parts: usize, i: usize) -> (bounds: (usize, usize))
    requires
        parts >= 1,
        i < parts,
    ensures
        bounds.0 == chunk_start(len as nat, parts as nat, i as nat),
        bounds.1 == chunk_start(len as nat, parts as nat, (i + 1) as nat),
        bounds.0 <= bounds.1 <= len,
{
    proof {
        assert(len % parts != 0 ==> len / parts < len) by (nonlinear_arith)
            requires
                parts >= 1,
        ;
    }
    let size = if len % parts == 0 {
        len / parts
    } else {
        len / parts + 1
    };
    let start = match i.checked_mul(size) {
        Some(first) => if first < len {
            first
        } else {
            len
        },
        None => len,
    };
    let end = match (i + 1).checked_mul(size) {
        Some(first) => if first < len {
            first
        } else {
            len
        },
        None => len,
    };
    proof {
        lemma_chunks_partition(len as nat, parts as nat);
        assert(start == chunk_start(len as nat, parts as nat, i as nat));
        assert(end == chunk_start(len as nat, parts as nat, (i + 1) as nat));
        assert(chunk_start(len as nat, parts as nat, i as nat) <= chunk_start(
            len as nat,
            parts as nat,
            (i + 1) as nat,
        ));
    }
    (start, end)
}

/// The number of amplitudes of a state of `n` wires, where a vector can hold
/// that many.
pub fn amplitude_count(n: u64) -> (len: Option<usize>)
    ensures
        match len {
            Some(len) => n < 64 && len == (1u64 << n),
            None => n >= 64 || (1u64 << n) > usize::MAX,
        },
{
    if n >= 64 {
        return None;
    }
    let len: u64 = 1u64 << n;
    if len > usize::MAX as u64 {
        return None;
    }
    Some(len as usize)
}

/// The state in which every wire is zero: `one` at index 0, `zero` elsewhere.
pub open spec fn ground<A>(n: u64, zero: A, one: A) -> Seq<A> {
    Seq::new(
        (1u64 << n) as nat,
        |i: int|
            if i == 0 {
                one
            } else {
                zero
            },
    )
}

/// A state of `n` wires as the vector of its `2^n` amplitudes, with a second
/// vector of the same size to write the next amplitudes into.
pub struct DenseState<A> {
    n: u64,
    state: Vec<A>,
    arena: Vec<A>,
}

impl<A> View for DenseState<A> {
    type V = Seq<A>;

    closed spec fn view(&self) -> Seq<A> {
        self.state@
    }
}

impl<A> DenseState<A> {
    /// The number of wires.
    pub closed spec fn wires(self) -> u64 {
        self.n
    }

    /// Both vectors hold one amplitude for each assignment of the wires.
    pub closed spec fn wf(self) -> bool {
        &&& self.n < 64
        &&& self.state@.len() == (1u64 << self.n)
        &&& self.arena@.len() == self.state@.len()
    }

    /// A well-formed state of `n` wires has `2^n` amplitudes, which a vector
    /// can hold.
    pub proof fn lemma_len(self)
        requires
            self.wf(),
        ensures
            self.wires() < 64,
            self@.len() == (1u64 << self.wires()),
            self@.len() <= usize::MAX,
    {
        assert(self.state.len() == self.state@.len());
    }

    /// The number of wires.
    pub fn n(&self) -> (n: u64)
        ensures
            n == self.wires(),
    {
        self.n
    }

    /// The amplitudes.
    pub fn state(&self) -> (amplitudes: &Vec<A>)
        ensures
            amplitudes@ == self@,
    {
        &self.state
    }
}

impl<A: Amplitude> DenseState<A> {
    /// The ground state of `n` wires, where a vector can hold its amplitudes.
    pub fn new(n: u64, zero: A, one: A) -> (made: Option<DenseState<A>>)
        ensures
            match made {
                Some(s) => s.wf() && s.wires() == n && s@ == ground(n, zero, one),
                None => n >= 64 || (1u64 << n) > usize::MAX,
            },
    {
        let len = match amplitude_count(n) {
            Some(len) => len,
            None => {
                return None;
            },
        };
        let mut state: Vec<A> = Vec::new();
        let mut arena: Vec<A> = Vec::new();
        let mut i: usize = 0;
        while i < len
            invariant
                i <= len,
                state@.len() == i,
                arena@.len() == i,
                forall|j: int|
                    0 <= j < i ==> state@[j] == (if j == 0 {
                        one
                    } else {
                        zero
                    }),
            decreases len - i,
        {
            state.push(if i == 0 {
                one
            } else {
                zero
            });
            arena.push(zero);
            i = i + 1;
        }
        proof {
            assert(state@ =~= ground(n, zero, one));
        }
        Some(DenseState { n, state, arena })
    }

    /// Applies `op`: one sweep over the amplitudes for a matrix on all the
    /// wires of `op`, one sweep for each wire where the matrix is broadcast.
    pub fn apply(&mut self, op: &QubitOp)
        requires
            old(self).wf(),
            op_fits(old(self).wires(), op@),
        ensures
            final(self).wf(),
            final(self).wires() == old(self).wires(),
            op_applied(old(self).wires(), op@, old(self)@, final(self)@),
    {
        let plan = pass_plan(op);
        let mut j: usize = 0;
        while j < plan.len()
            invariant
                self.wf(),
                self.wires() == old(self).wires(),
                op_fits(self.wires(), op@),
                plan@.len() == pass_count(op@),
                forall|i: int| 0 <= i < plan@.len() ==> (#[trigger] plan@[i])@ == pass_wires(op@, i),
                j <= plan@.len(),
                passes_applied(old(self).wires(), op@, old(self)@, j as nat, self@),
            decreases plan.len() - j,
        {
            let ghost before = self@;
            proof {
                lemma_pass_fits(self.wires(), op@, j as int);
            }
            self.apply_pass(&op.controls, &plan[j], &op.data);
            proof {
                lemma_passes_push(old(self).wires(), op@, old(self)@, j as nat, before, self@);
            }
            j = j + 1;
        }
    }

    /// The state with the given vectors, where both hold one amplitude for
    /// each assignment of `n` wires.
    pub fn from_parts(n: u64, state: Vec<A>, arena: Vec<A>) -> (made: Option<DenseState<A>>)
        ensures
            match made {
                Some(s) => s.wf() && s.wires() == n && s@ == state@,
                None => n >= 64 || state@.len() != (1u64 << n) || arena@.len() != state@.len(),
            },
    {
        match amplitude_count(n) {
            Some(len) => if state.len() == len && arena.len() == len {
                Some(DenseState { n, state, arena })
            } else {
                None
            },
            None => {
                assert(state@.len() == state.len());
                None
            },
        }
    }

    /// The number of wires, the amplitudes and the second vector.
    pub fn into_parts(self) -> (parts: (u64, Vec<A>, Vec<A>))
        ensures
            parts.0 == self.wires(),
            parts.1@ == self@,
            self.wf() ==> parts.2@.len() == parts.1@.len(),
    {
        (self.n, self.state, self.arena)
    }

    /// Whether both vectors hold one amplitude for each assignment of the
    /// wires.
    pub fn is_wf(&self) -> (ok: bool)
        ensures
            ok == self.wf(),
    {
        match amplitude_count(self.n) {
            Some(len) => self.state.len() == len && self.arena.len() == len,
            None => {
                assert(self.state@.len() == self.state.len());
                false
            },
        }
    }

    /// One sweep: writes the new amplitude of every row into the second
    /// vector, then exchanges the two vectors.
    fn apply_pass(&mut self, controls: &Vec<u64>, wires: &Vec<u64>, data: &MatrixData)
        requires
            old(self).wf(),
            wires_within(old(self).wires(), controls@),
            wires_within(old(self).wires(), wires@),
            matrix_fits(wires@, data@.len()),
        ensures
            final(self).wf(),
            final(self).wires() == old(self).wires(),
            pass_applied(old(self).wires(), controls@, wires@, data@, old(self)@, final(self)@),
    {
        let n = self.n;
        let len = self.state.len();
        let mut terms: Vec<Term> = Vec::new();
        let mut row: usize = 0;
        while row < len
            invariant
                n == self.n,
                n == old(self).n,
                n < 64,
                len == (1u64 << n),
                self.state@ == old(self).state@,
                self.state@.len() == len,
                self.arena@.len() == len,
                row <= len,
                wires_within(n, controls@),
                wires_within(n, wires@),
                matrix_fits(wires@, data@.len()),
                forall|r: u64|
                    r < row ==> row_applied(
                        n,
                        controls@,
                        wires@,
                        data@,
                        self.state@,
                        r,
                        #[trigger] self.arena@[r as int],
                    ),
            decreases len - row,
        {
            let value = row_value(n, controls, wires, data, &self.state, row, &mut terms);
            self.arena.set(row, value);
            row = row + 1;
        }
        std::mem::swap(&mut self.state, &mut self.arena);
    }
}

impl<A: Amplitude> QuantumState for DenseState<A> {
    /// An operation that fits the state is applied; any other leaves the
    /// amplitudes as they are.
    open spec fn step(pre: Self, op: QubitOp, post: Self) -> bool {
        pre.wf() ==> {
            &&& post.wf()
            &&& post.wires() == pre.wires()
            &&& if op_fits(pre.wires(), op@) {
                op_applied(pre.wires(), op@, pre@, post@)
            } else {
                post@ == pre@
            }
        }
    }

    fn apply_op(&mut self, op: &QubitOp) {
        if self.is_wf() && op_fits_state(self.n, op) {
            self.apply(op);
        }
    }
}

} // verus!
