use vstd::prelude::*;

verus! {

/// A complex double-precision number, carried as the IEEE 754 bit patterns of
/// its real and imaginary parts. The library stores and moves these values; it
/// never does arithmetic on them.
#[derive(Clone, Copy, Debug, PartialEq, Eq)]
pub struct ComplexBits {
    pub re: u64,
    pub im: u64,
}

/// The matrix payload of an operation, row-major.
#[derive(Clone, Debug, PartialEq, Eq)]
pub enum MatrixData {
    /// Complex entries.
    Complex(Vec<ComplexBits>),
    /// Real entries, each the IEEE 754 bit pattern of a double.
    Real(Vec<u64>),
}

/// The bit pattern of the double 0.
pub const ZERO_BITS: u64 = 0;

/// The bit pattern of the double 1.
pub const ONE_BITS: u64 = 0x3FF0_0000_0000_0000;

/// The bit pattern of the double -1.
pub const MINUS_ONE_BITS: u64 = 0xBFF0_0000_0000_0000;

/// The bit pattern of the double nearest to the square root of one half.
pub const FRAC_1_SQRT_2_BITS: u64 = 0x3FE6_A09E_667F_3BCD;

/// The bit pattern of the negative of that double.
pub const MINUS_FRAC_1_SQRT_2_BITS: u64 = 0xBFE6_A09E_667F_3BCD;

/// What a matrix payload holds.
pub enum MatrixView {
    Complex(Seq<ComplexBits>),
    Real(Seq<u64>),
}

/// Whether a bit pattern is that of a double other than zero and minus zero.
pub open spec fn bits_nonzero(bits: u64) -> bool {
    bits & 0x7FFF_FFFF_FFFF_FFFF != 0
}

impl MatrixView {
    /// The number of entries.
    pub open spec fn len(self) -> nat {
        match self {
            MatrixView::Complex(entries) => entries.len(),
            MatrixView::Real(entries) => entries.len(),
        }
    }

    /// Whether entry `i` is other than zero.
    pub open spec fn nonzero(self, i: int) -> bool {
        match self {
            MatrixView::Complex(entries) => bits_nonzero(entries[i].re) || bits_nonzero(
                entries[i].im,
            ),
            MatrixView::Real(entries) => bits_nonzero(entries[i]),
        }
    }
}

impl View for MatrixData {
    type V = MatrixView;

    open spec fn view(&self) -> MatrixView {
        match self {
            MatrixData::Complex(entries) => MatrixView::Complex(entries@),
            MatrixData::Real(entries) => MatrixView::Real(entries@),
        }
    }
}

impl MatrixData {
    /// The number of entries.
    pub fn len(&self) -> (n: usize)
        ensures
            n == self@.len(),
    {
        match self {
            MatrixData::Complex(entries) => entries.len(),
            MatrixData::Real(entries) => entries.len(),
        }
    }

    /// Whether entry `i` is other than zero.
    pub fn is_nonzero(&self, i: usize) -> (nonzero: bool)
        requires
            i < self@.len(),
        ensures
            nonzero == self@.nonzero(i as int),
    {
        match self {
            MatrixData::Complex(entries) => (entries[i].re & 0x7FFF_FFFF_FFFF_FFFF != 0) || (
            entries[i].im & 0x7FFF_FFFF_FFFF_FFFF != 0),
            MatrixData::Real(entries) => entries[i] & 0x7FFF_FFFF_FFFF_FFFF != 0,
        }
    }
}

/// The matrix that exchanges the two states of a wire.
pub open spec fn not_matrix() -> MatrixView {
    MatrixView::Real(seq![ZERO_BITS, ONE_BITS, ONE_BITS, ZERO_BITS])
}

/// The Pauli matrix Y.
pub open spec fn y_matrix() -> MatrixView {
    MatrixView::Complex(
        seq![
            ComplexBits { re: ZERO_BITS, im: ZERO_BITS },
            ComplexBits { re: ZERO_BITS, im: MINUS_ONE_BITS },
            ComplexBits { re: ZERO_BITS, im: ONE_BITS },
            ComplexBits { re: ZERO_BITS, im: ZERO_BITS },
        ],
    )
}

/// The Pauli matrix Z.
pub open spec fn z_matrix() -> MatrixView {
    MatrixView::Real(seq![ONE_BITS, ZERO_BITS, ZERO_BITS, MINUS_ONE_BITS])
}

/// The Hadamard matrix.
pub open spec fn hadamard_matrix() -> MatrixView {
    MatrixView::Real(
        seq![
            FRAC_1_SQRT_2_BITS,
            FRAC_1_SQRT_2_BITS,
            FRAC_1_SQRT_2_BITS,
            MINUS_FRAC_1_SQRT_2_BITS,
        ],
    )
}

/// The sub-index `x` of `2k` wires with its two halves of `k` wires
/// exchanged.
pub open spec fn swapped(k: u64, x: int) -> int {
    let half = (1u64 << k) as int;
    (x % half) * half + x / half
}

/// The matrix that exchanges the first `k` of `2k` wires with the last `k`:
/// row `x` holds a one in column `swapped(k, x)` and zeros elsewhere.
pub open spec fn swap_matrix(k: u64) -> MatrixView {
    let half = (1u64 << k) as int;
    let dim = half * half;
    MatrixView::Real(
        Seq::new(
            (dim * dim) as nat,
            |e: int|
                if e % dim == swapped(k, e / dim) {
                    ONE_BITS
                } else {
                    ZERO_BITS
                },
        ),
    )
}

/// A vector can hold the matrix that exchanges two registers of `k` wires.
pub open spec fn swap_fits(k: nat) -> bool {
    k <= 15 && (1u64 << ((4 * k) as u64)) <= usize::MAX
}

impl MatrixData {
    /// The matrix that exchanges two registers of `k` wires each, where a
    /// vector can hold it.
    pub fn swap(k: usize) -> (m: Option<MatrixData>)
        ensures
            match m {
                Some(m) => swap_fits(k as nat) && m@ == swap_matrix(k as u64),
                None => !swap_fits(k as nat),
            },
    {
        if k > 15 {
            return None;
        }
        let ku = k as u64;
        let half: u64 = 1u64 << ku;
        proof {
            assert(half == 1u64 << ku);
            assert(1 <= half <= 0x8000 && half * half == (1u64 << ((2 * ku) as u64)) && (half * half)
                * (half * half) == (1u64 << ((4 * ku) as u64))) by (bit_vector)
                requires
                    ku <= 15,
                    half == 1u64 << ku,
            ;
        }
        proof {
            assert(half * half <= 0x4000_0000) by (nonlinear_arith)
                requires
                    half <= 0x8000,
            ;
        }
        let dim: u64 = half * half;
        proof {
            assert(dim * dim <= 0x1000_0000_0000_0000) by (nonlinear_arith)
                requires
                    dim <= 0x4000_0000,
            ;
        }
        let total: u64 = dim * dim;
        if total > usize::MAX as u64 {
            return None;
        }
        let mut entries: Vec<u64> = Vec::new();
        let mut row: u64 = 0;
        while row < dim
            invariant
                ku <= 15,
                half == 1u64 << ku,
                1 <= half <= 0x8000,
                dim == half * half,
                total == dim * dim,
                total <= usize::MAX,
                row <= dim,
                entries@.len() == row * dim,
                forall|e: int|
                    0 <= e < entries@.len() ==> #[trigger] entries@[e] == (if e % (dim as int)
                        == swapped(ku, e / (dim as int)) {
                        ONE_BITS
                    } else {
                        ZERO_BITS
                    }),
            decreases dim - row,
        {
            proof {
                assert((row % half) * half + row / half < dim && (row % half) * half < dim) by (nonlinear_arith)
                    requires
                        1 <= half,
                        row < dim,
                        dim == half * half,
                ;
            }
            let target = (row % half) * half + row / half;
            let mut col: u64 = 0;
            while col < dim
                invariant
                    ku <= 15,
                    half == 1u64 << ku,
                    1 <= half <= 0x8000,
                    dim == half * half,
                    total == dim * dim,
                    total <= usize::MAX,
                    row < dim,
                    col <= dim,
                    target == swapped(ku, row as int),
                    entries@.len() == row * dim + col,
                    forall|e: int|
                        0 <= e < entries@.len() ==> #[trigger] entries@[e] == (if e % (dim as int)
                            == swapped(ku, e / (dim as int)) {
                            ONE_BITS
                        } else {
                            ZERO_BITS
                        }),
                decreases dim - col,
            {
                proof {
                    vstd::arithmetic::div_mod::lemma_fundamental_div_mod_converse(
                        row * dim + col,
                        dim as int,
                        row as int,
                        col as int,
                    );
                }
                entries.push(if col == target {
                    ONE_BITS
                } else {
                    ZERO_BITS
                });
                col = col + 1;
            }
            proof {
                assert(row * dim + dim == (row + 1) * dim) by (nonlinear_arith);
            }
            row = row + 1;
        }
        proof {
            assert(entries@ =~= swap_matrix(ku)->Real_0);
        }
        Some(MatrixData::Real(entries))
    }

    /// A real matrix of two rows and two columns.
    pub fn real_2x2(a: u64, b: u64, c: u64, d: u64) -> (m: MatrixData)
        ensures
            m@ == MatrixView::Real(seq![a, b, c, d]),
    {
        let mut entries: Vec<u64> = Vec::new();
        entries.push(a);
        entries.push(b);
        entries.push(c);
        entries.push(d);
        proof {
            assert(entries@ == seq![a, b, c, d]);
        }
        MatrixData::Real(entries)
    }

    /// The matrix that exchanges the two states of a wire.
    pub fn not() -> (m: MatrixData)
        ensures
            m@ == not_matrix(),
    {
        MatrixData::real_2x2(ZERO_BITS, ONE_BITS, ONE_BITS, ZERO_BITS)
    }

    /// The Pauli matrix Y.
    pub fn y() -> (m: MatrixData)
        ensures
            m@ == y_matrix(),
    {
        let mut entries: Vec<ComplexBits> = Vec::new();
        entries.push(ComplexBits { re: ZERO_BITS, im: ZERO_BITS });
        entries.push(ComplexBits { re: ZERO_BITS, im: MINUS_ONE_BITS });
        entries.push(ComplexBits { re: ZERO_BITS, im: ONE_BITS });
        entries.push(ComplexBits { re: ZERO_BITS, im: ZERO_BITS });
        proof {
            assert(entries@ == y_matrix()->Complex_0);
        }
        MatrixData::Complex(entries)
    }

    /// The Pauli matrix Z.
    pub fn z() -> (m: MatrixData)
        ensures
            m@ == z_matrix(),
    {
        MatrixData::real_2x2(ONE_BITS, ZERO_BITS, ZERO_BITS, MINUS_ONE_BITS)
    }

    /// The Hadamard matrix.
    pub fn hadamard() -> (m: MatrixData)
        ensures
            m@ == hadamard_matrix(),
    {
        MatrixData::real_2x2(
            FRAC_1_SQRT_2_BITS,
            FRAC_1_SQRT_2_BITS,
            FRAC_1_SQRT_2_BITS,
            MINUS_FRAC_1_SQRT_2_BITS,
        )
    }
}

} // verus!
