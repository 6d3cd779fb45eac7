use vstd::prelude::*;

verus! {

/// Marks an empty slot of a link list or a missing parent.
pub const EMPTY: i32 = -1;

/// The involution that AMD uses to mark entries: `flip(flip(i)) == i`,
/// and it maps `-1` to `-1` and every `i >= 0` to a value `<= -2`.
pub open spec fn spec_flip(i: int) -> int {
    -i - 2
}

/// Law: `flip` undoes itself, keeps `EMPTY`, and sends every index `i >= 0`
/// below `EMPTY`, so a flipped index is told apart from an unflipped one.
pub proof fn lemma_flip(i: int)
    ensures
        spec_flip(spec_flip(i)) == i,
        spec_flip(EMPTY as int) == EMPTY,
        i >= 0 ==> spec_flip(i) < EMPTY,
{
}

/// Computes `-i - 2`.
pub fn flip(i: i32) -> (r: i32)
    requires
        i < i32::MAX,
    ensures
        r == spec_flip(i as int),
{
    -2 - i
}

/// Statistics gathered while ordering a matrix.
#[derive(Debug)]
pub struct Info {
    /// Return value of order and l_order.
    pub status: Status,
    /// A is n-by-n.
    pub n: i32,
    /// Number of nonzeros in A.
    pub nz: i32,
    /// Symmetry of pattern (true is sym., false is unsym.)
    pub symmetry: bool,
    /// Number of entries on diagonal.
    pub nz_diag: i32,
    /// nz in A+A'.
    pub nz_a_plus_at: i32,
    /// Number of "dense" rows/columns in A.
    pub n_dense: i32,
    /// Number of garbage collections in AMD.
    pub n_cmp_a: i32,
    /// Approx. nz in L, excluding the diagonal.
    pub lnz: i32,
    /// Number of fl. point divides for LU and LDL'.
    pub n_div: i32,
    /// Number of fl. point (*,-) pairs for LDL'.
    pub n_mult_subs_ldl: i32,
    /// Number of fl. point (*,-) pairs for LU.
    pub n_mult_subs_lu: i32,
    /// Max nz. in any column of L, incl. diagonal.
    pub d_max: i32,
}

/// Outcome of an ordering.
#[derive(Debug, PartialEq, Eq, Structural, Clone, Copy)]
pub enum Status {
    OK,
    OutOfMemory,
    /// Input arguments are not valid.
    Invalid,
    /// Input matrix is OK for order, but columns were not sorted, and/or
    /// duplicate entries were present. AMD had to do extra work before
    /// ordering the matrix. This is a warning, not an error.
    OkButJumbled,
}

} // verus!
