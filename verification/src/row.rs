//! The implicant-table row: a bit pattern together with the original input
//! combinations it subsumes, and the predicates stating when such a row is
//! consistent with the inputs it was built from.

use vstd::prelude::*;
use crate::bitmath::{ones, covers, fits, popcount};

verus! {

/// One row of an implicant table: `bits` is the `(value, mask)` pattern,
/// `minterms` the original minterms and don't-cares the pattern subsumes,
/// and `combined` records whether the row was merged into a wider implicant.
pub struct MintermTableRow {
    pub minterms: Vec<u32>,
    pub bits: (u32, u32),
    pub combined: bool,
}

/// `x` is one of the original inputs: a required minterm or a don't-care.
pub open spec fn is_input(mts: Seq<u32>, dcs: Seq<u32>, x: u32) -> bool {
    mts.contains(x) || dcs.contains(x)
}

/// The row's minterm list is exactly the set of original inputs covered by
/// its bit pattern.
pub open spec fn row_exact(row: MintermTableRow, mts: Seq<u32>, dcs: Seq<u32>) -> bool {
    &&& forall|i: int|
        0 <= i < row.minterms@.len() ==> covers(row.bits, #[trigger] row.minterms@[i]) && is_input(
            mts,
            dcs,
            row.minterms@[i],
        )
    &&& forall|x: u32|
        is_input(mts, dcs, x) && covers(row.bits, x) ==> row.minterms@.contains(x)
    &&& forall|x: u32| covers(row.bits, x) ==> is_input(mts, dcs, x)
}

/// Well-formedness of a row sitting in table `t` of a run over `n` input
/// variables: its minterm list is exact and duplicate-free, masked value
/// bits are clear, the mask frees exactly `t` positions, and both pattern
/// words stay inside the variable range.
pub open spec fn good_row(
    row: MintermTableRow,
    mts: Seq<u32>,
    dcs: Seq<u32>,
    n: nat,
    t: nat,
) -> bool {
    &&& row_exact(row, mts, dcs)
    &&& row.minterms@.no_duplicates()
    &&& row.minterms@.len() > 0
    &&& row.bits.0 & row.bits.1 == 0
    &&& ones(row.bits.1) == t
    &&& fits(row.bits.0, n)
    &&& fits(row.bits.1, n)
}

/// Two rows with the same fields.
pub open spec fn same_row(a: MintermTableRow, b: MintermTableRow) -> bool {
    a.minterms@ == b.minterms@ && a.bits == b.bits && a.combined == b.combined
}

impl MintermTableRow {
    /// Number of set care-bits in the row's value word.
    pub fn high_bits_count(&self) -> (r: usize)
        ensures
            r == ones(self.bits.0),
    {
        proof {
            crate::bitmath::lemma_ones_le_32(self.bits.0);
        }
        popcount(self.bits.0) as usize
    }

    /// A field-for-field copy of the row.
    pub fn duplicate(&self) -> (r: MintermTableRow)
        ensures
            same_row(r, *self),
    {
        MintermTableRow {
            minterms: copy_values(&self.minterms),
            bits: self.bits,
            combined: self.combined,
        }
    }
}

/// A fresh vector with the same contents.
pub fn copy_values(v: &Vec<u32>) -> (r: Vec<u32>)
    ensures
        r@ == v@,
{
    let mut r: Vec<u32> = Vec::new();
    let mut i: usize = 0;
    while i < v.len()
        invariant
            i <= v@.len(),
            r@ == v@.subrange(0, i as int),
        decreases v@.len() - i,
    {
        r.push(v[i]);
        proof {
            assert(r@ =~= v@.subrange(0, i + 1));
        }
        i = i + 1;
    }
    proof {
        assert(r@ =~= v@);
    }
    r
}

/// Whether `x` occurs in `v`.
pub fn contains_value(v: &Vec<u32>, x: u32) -> (r: bool)
    ensures
        r == v@.contains(x),
{
    let mut i: usize = 0;
    while i < v.len()
        invariant
            i <= v@.len(),
            forall|j: int| 0 <= j < i ==> v@[j] != x,
        decreases v@.len() - i,
    {
        if v[i] == x {
            return true;
        }
        i = i + 1;
    }
    false
}

} // verus!
