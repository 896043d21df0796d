//! The implicant combiner: builds the initial table, repeatedly merges
//! implicants that differ in a single care-bit, and collects the prime
//! implicants (rows never merged into a wider one).

use vstd::prelude::*;
use rayon::iter::{IndexedParallelIterator, IntoParallelRefIterator, ParallelIterator};
use crate::bitmath::{
    ones,
    covers,
    fits,
    low_bit,
    popcount,
    single_bit_index,
    lemma_ones_le_32,
    lemma_ones_subset_eq,
    lemma_ones_flip,
    lemma_low_bit,
    lemma_covers_combine,
    lemma_covers_zero_mask,
    lemma_fits_xor,
};
use crate::row::{
    MintermTableRow,
    is_input,
    row_exact,
    good_row,
    same_row,
    copy_values,
    contains_value,
};

verus! {

/// Two rows may merge when the first row's freed positions are among the
/// second's and their value words differ in exactly one bit.
pub open spec fn combinable(a: MintermTableRow, b: MintermTableRow) -> bool {
    a.bits.1 & b.bits.1 == a.bits.1 && ones(a.bits.0 ^ b.bits.0) == 1
}

/// The merge instructions produced by pairing row `fi` against rows
/// `sj .. s1`, in index order.
pub open spec fn spec_row_pairs(t: Seq<MintermTableRow>, fi: int, sj: int, s1: int) -> Seq<
    (usize, usize, u32),
>
    decreases s1 - sj,
{
    if sj < 0 || sj >= s1 {
        Seq::empty()
    } else {
        let rest = spec_row_pairs(t, fi, sj + 1, s1);
        if combinable(t[fi], t[sj]) {
            seq![(fi as usize, sj as usize, low_bit(t[fi].bits.0 ^ t[sj].bits.0))] + rest
        } else {
            rest
        }
    }
}

/// The merge instructions for all rows `fi .. f1` paired against rows
/// `s0 .. s1`, in row order.
pub open spec fn spec_scan(t: Seq<MintermTableRow>, fi: int, f1: int, s0: int, s1: int) -> Seq<
    (usize, usize, u32),
>
    decreases f1 - fi,
{
    if fi < 0 || fi >= f1 {
        Seq::empty()
    } else {
        spec_row_pairs(t, fi, s0, s1) + spec_scan(t, fi + 1, f1, s0, s1)
    }
}

/// Every merge instruction among `spec_row_pairs` pairs row `fi` with a
/// combinable row in `sj .. s1` and carries the differing bit's index.
pub proof fn lemma_row_pairs_props(t: Seq<MintermTableRow>, fi: int, sj: int, s1: int, p: int)
    requires
        0 <= p < spec_row_pairs(t, fi, sj, s1).len(),
        0 <= fi <= usize::MAX,
        s1 <= usize::MAX,
    ensures
        ({
            let e = spec_row_pairs(t, fi, sj, s1)[p];
            &&& e.0 == fi
            &&& sj <= e.1 < s1
            &&& combinable(t[e.0 as int], t[e.1 as int])
            &&& e.2 == low_bit(t[e.0 as int].bits.0 ^ t[e.1 as int].bits.0)
        }),
    decreases s1 - sj,
{
    if sj < 0 || sj >= s1 {
    } else {
        let rest = spec_row_pairs(t, fi, sj + 1, s1);
        if combinable(t[fi], t[sj]) {
            let head = seq![
                (fi as usize, sj as usize, low_bit(t[fi].bits.0 ^ t[sj].bits.0)),
            ];
            assert(spec_row_pairs(t, fi, sj, s1) == head + rest);
            if p > 0 {
                assert((head + rest)[p] == rest[p - 1]);
                lemma_row_pairs_props(t, fi, sj + 1, s1, p - 1);
            } else {
                assert((head + rest)[0] == head[0]);
            }
        } else {
            lemma_row_pairs_props(t, fi, sj + 1, s1, p);
        }
    }
}

/// Every merge instruction among `spec_scan` pairs a row of `fi .. f1`
/// with a combinable row of `s0 .. s1`.
pub proof fn lemma_scan_props(t: Seq<MintermTableRow>, fi: int, f1: int, s0: int, s1: int, p: int)
    requires
        0 <= p < spec_scan(t, fi, f1, s0, s1).len(),
        0 <= fi <= usize::MAX,
        f1 <= usize::MAX,
        s1 <= usize::MAX,
    ensures
        ({
            let e = spec_scan(t, fi, f1, s0, s1)[p];
            &&& fi <= e.0 < f1
            &&& s0 <= e.1 < s1
            &&& combinable(t[e.0 as int], t[e.1 as int])
            &&& e.2 == low_bit(t[e.0 as int].bits.0 ^ t[e.1 as int].bits.0)
        }),
    decreases f1 - fi,
{
    if fi < 0 || fi >= f1 {
    } else {
        let head = spec_row_pairs(t, fi, s0, s1);
        if p < head.len() {
            lemma_row_pairs_props(t, fi, s0, s1, p);
        } else {
            lemma_scan_props(t, fi + 1, f1, s0, s1, p - head.len());
        }
    }
}

/// The merge instructions for one row of the lower group, computed
/// sequentially: row `f0 + i` against every row of `f1 .. s1`.
pub fn pairs_for_row(f0: usize, i: usize, t: &Vec<MintermTableRow>, f1: usize, s1: usize) -> (r:
    Vec<(usize, usize, u32)>)
    requires
        f0 + i < f1,
        f1 <= s1,
        s1 <= t@.len(),
    ensures
        r@ == spec_row_pairs(t@, f0 + i as int, f1 as int, s1 as int),
{
    let fi: usize = f0 + i;
    let mut r: Vec<(usize, usize, u32)> = Vec::new();
    let mut j: usize = f1;
    while j < s1
        invariant
            f1 <= j <= s1,
            s1 <= t@.len(),
            fi < f1,
            spec_row_pairs(t@, fi as int, f1 as int, s1 as int) == r@ + spec_row_pairs(
                t@,
                fi as int,
                j as int,
                s1 as int,
            ),
        decreases s1 - j,
    {
        let ghost r_before = r@;
        let a = &t[fi];
        let b = &t[j];
        if a.bits.1 & b.bits.1 == a.bits.1 {
            let diff = a.bits.0 ^ b.bits.0;
            if popcount(diff) == 1 {
                let db = single_bit_index(diff);
                r.push((fi, j, db));
            }
        }
        proof {
            assert(r_before + spec_row_pairs(t@, fi as int, j as int, s1 as int) =~= r@
                + spec_row_pairs(t@, fi as int, j + 1, s1 as int));
        }
        j = j + 1;
    }
    proof {
        assert(r@ =~= r@ + spec_row_pairs(t@, fi as int, s1 as int, s1 as int));
    }
    r
}

/// Some uncombined row of `rows` subsumes `x`.
pub open spec fn has_live_row(rows: Seq<MintermTableRow>, x: u32) -> bool {
    exists|i: int|
        0 <= i < rows.len() && !(#[trigger] rows[i]).combined && rows[i].minterms@.contains(x)
}

/// Some table still holds an uncombined row subsuming `x`.
pub open spec fn tables_cover(tables: Seq<Vec<MintermTableRow>>, x: u32) -> bool {
    exists|t: int| 0 <= t < tables.len() && has_live_row((#[trigger] tables[t])@, x)
}

/// Every row of table `t` is well formed for inputs `mts` / `dcs` over `n`
/// variables.
pub open spec fn good_table(
    rows: Seq<MintermTableRow>,
    mts: Seq<u32>,
    dcs: Seq<u32>,
    n: nat,
    t: nat,
) -> bool {
    forall|i: int| 0 <= i < rows.len() ==> good_row(#[trigger] rows[i], mts, dcs, n, t)
}

/// `o` is the index of the first row of `t` with `g` set care-bits, or
/// absent when no row has `g` of them.
pub open spec fn group_start_ok(t: Seq<MintermTableRow>, g: int, o: Option<usize>) -> bool {
    match o {
        Some(p) => p < t.len() && ones(t[p as int].bits.0) == g && forall|q: int|
            0 <= q < p ==> ones(#[trigger] t[q].bits.0) != g,
        None => forall|q: int| 0 <= q < t.len() ==> ones(#[trigger] t[q].bits.0) != g,
    }
}

/// `a` and `b` hold the same rows up to their `combined` flags.
pub open spec fn same_rows_mod_combined(a: Seq<MintermTableRow>, b: Seq<MintermTableRow>) -> bool {
    a.len() == b.len() && forall|i: int|
        0 <= i < a.len() ==> (#[trigger] a[i]).bits == b[i].bits && a[i].minterms@
            == b[i].minterms@
}

/// Merging two well-formed rows of table `t` whose value words sit in
/// adjacent population-count groups yields a well-formed row of table
/// `t + 1`.
pub proof fn lemma_merge_good(
    ra: MintermTableRow,
    rb: MintermTableRow,
    nr: MintermTableRow,
    mts: Seq<u32>,
    dcs: Seq<u32>,
    n: nat,
    t: nat,
    g: nat,
)
    requires
        good_row(ra, mts, dcs, n, t),
        good_row(rb, mts, dcs, n, t),
        ones(ra.bits.0) == g,
        ones(rb.bits.0) == g + 1,
        combinable(ra, rb),
        nr.bits.0 == ra.bits.0,
        nr.bits.1 == ra.bits.1 ^ (1u32 << low_bit(ra.bits.0 ^ rb.bits.0)),
        nr.minterms@.no_duplicates(),
        nr.minterms@.len() > 0,
        forall|y: u32|
            nr.minterms@.contains(y) <==> ra.minterms@.contains(y) || rb.minterms@.contains(y),
    ensures
        good_row(nr, mts, dcs, n, t + 1),
{
    let va = ra.bits.0;
    let ma = ra.bits.1;
    let vb = rb.bits.0;
    let mb = rb.bits.1;
    let d = (va ^ vb) as u32;
    lemma_ones_subset_eq(ma, mb);
    lemma_low_bit(d);
    let k = low_bit(d);
    assert(vb == va ^ (1u32 << k)) by (bit_vector)
        requires
            va ^ vb == 1u32 << k,
    ;
    lemma_ones_flip(va, k);
    assert(va & (1u32 << k) == 0);
    assert(ma & (1u32 << k) == 0 && ma ^ (1u32 << k) == (ma | (1u32 << k)) && va & (ma | (1u32
        << k)) == 0) by (bit_vector)
        requires
            va & ma == 0,
            vb & ma == 0,
            vb == va ^ (1u32 << k),
            va & (1u32 << k) == 0,
            k < 32,
    ;
    lemma_ones_flip(ma, k);
    assert(ones(nr.bits.1) == t + 1);
    lemma_fits_xor(va, vb, n);
    lemma_fits_xor(ma, d, n);
    assert(nr.bits == (va, ma | (1u32 << k)));
    assert forall|i: int| 0 <= i < nr.minterms@.len() implies covers(
        nr.bits,
        #[trigger] nr.minterms@[i],
    ) && is_input(mts, dcs, nr.minterms@[i]) by {
        let y = nr.minterms@[i];
        assert(nr.minterms@.contains(y));
        lemma_covers_combine(va, ma, k, y);
        if ra.minterms@.contains(y) {
            let q = choose|q: int| 0 <= q < ra.minterms@.len() && ra.minterms@[q] == y;
            assert(covers(ra.bits, ra.minterms@[q]));
        } else {
            let q = choose|q: int| 0 <= q < rb.minterms@.len() && rb.minterms@[q] == y;
            assert(covers(rb.bits, rb.minterms@[q]));
        }
    }
    assert forall|x: u32| is_input(mts, dcs, x) && covers(nr.bits, x) implies nr.minterms@.contains(
        x,
    ) by {
        lemma_covers_combine(va, ma, k, x);
    }
    assert forall|x: u32| covers(nr.bits, x) implies is_input(mts, dcs, x) by {
        lemma_covers_combine(va, ma, k, x);
    }
}

/// Table zero: one single-minterm row per minterm and per don't-care, in
/// input order, with an empty mask.
pub fn build_first_table(minterms: &Vec<u32>, dont_cares: &Vec<u32>, num_vars: usize) -> (t0: Vec<
    MintermTableRow,
>)
    requires
        forall|i: int|
            0 <= i < minterms@.len() ==> fits(#[trigger] minterms@[i], num_vars as nat),
        forall|i: int|
            0 <= i < dont_cares@.len() ==> fits(#[trigger] dont_cares@[i], num_vars as nat),
    ensures
        t0@.len() == minterms@.len() + dont_cares@.len(),
        good_table(t0@, minterms@, dont_cares@, num_vars as nat, 0),
        forall|x: u32| is_input(minterms@, dont_cares@, x) ==> has_live_row(t0@, x),
{
    let ghost mts = minterms@;
    let ghost dcs = dont_cares@;
    let mut t0: Vec<MintermTableRow> = Vec::new();
    let mut i: usize = 0;
    while i < minterms.len()
        invariant
            i <= mts.len(),
            t0@.len() == i,
            mts == minterms@,
            dcs == dont_cares@,
            forall|i2: int|
                0 <= i2 < minterms@.len() ==> fits(#[trigger] minterms@[i2], num_vars as nat),
            good_table(t0@, mts, dcs, num_vars as nat, 0),
            forall|i2: int| 0 <= i2 < i ==> (#[trigger] t0@[i2]).minterms@ =~= seq![mts[i2]]
                && !t0@[i2].combined,
        decreases mts.len() - i,
    {
        let mt = minterms[i];
        let nr = MintermTableRow { minterms: vec![mt], bits: (mt, 0u32), combined: false };
        proof {
            lemma_single_row_good(nr, mt, mts, dcs, num_vars as nat);
        }
        t0.push(nr);
        i = i + 1;
    }
    let ghost base = mts.len();
    let mut j: usize = 0;
    while j < dont_cares.len()
        invariant
            j <= dcs.len(),
            t0@.len() == base + j,
            mts == minterms@,
            dcs == dont_cares@,
            base == mts.len(),
            forall|i2: int|
                0 <= i2 < dont_cares@.len() ==> fits(#[trigger] dont_cares@[i2], num_vars as nat),
            good_table(t0@, mts, dcs, num_vars as nat, 0),
            forall|i2: int| 0 <= i2 < base ==> (#[trigger] t0@[i2]).minterms@ =~= seq![mts[i2]]
                && !t0@[i2].combined,
            forall|i2: int| base <= i2 < base + j ==> (#[trigger] t0@[i2]).minterms@ =~= seq![
                dcs[i2 - base],
            ] && !t0@[i2].combined,
        decreases dcs.len() - j,
    {
        let mt = dont_cares[j];
        let nr = MintermTableRow { minterms: vec![mt], bits: (mt, 0u32), combined: false };
        proof {
            lemma_single_row_good(nr, mt, mts, dcs, num_vars as nat);
        }
        t0.push(nr);
        j = j + 1;
    }
    proof {
        assert forall|x: u32| is_input(mts, dcs, x) implies has_live_row(t0@, x) by {
            if mts.contains(x) {
                let q = choose|q: int| 0 <= q < mts.len() && mts[q] == x;
                assert(t0@[q].minterms@.contains(x)) by {
                    assert(t0@[q].minterms@[0] == x);
                }
            } else {
                let q = choose|q: int| 0 <= q < dcs.len() && dcs[q] == x;
                assert(t0@[base + q].minterms@.contains(x)) by {
                    assert(t0@[base + q].minterms@[0] == x);
                }
            }
        }
    }
    t0
}

/// A freshly-built single-minterm row is well formed for table zero.
proof fn lemma_single_row_good(
    nr: MintermTableRow,
    mt: u32,
    mts: Seq<u32>,
    dcs: Seq<u32>,
    n: nat,
)
    requires
        nr.minterms@ =~= seq![mt],
        nr.bits == (mt, 0u32),
        fits(mt, n),
        is_input(mts, dcs, mt),
    ensures
        good_row(nr, mts, dcs, n, 0),
{
    assert(ones(0u32) == 0);
    assert(mt & 0u32 == 0) by (bit_vector);
    if n < 32 {
        let s = n as u32;
        assert((0u32 >> s) == 0) by (bit_vector);
    }
    assert forall|i: int| 0 <= i < nr.minterms@.len() implies covers(
        nr.bits,
        #[trigger] nr.minterms@[i],
    ) && is_input(mts, dcs, nr.minterms@[i]) by {
        lemma_covers_zero_mask(mt, nr.minterms@[i]);
    }
    assert forall|x: u32| is_input(mts, dcs, x) && covers(nr.bits, x) implies nr.minterms@.contains(
        x,
    ) by {
        lemma_covers_zero_mask(mt, x);
        assert(nr.minterms@[0] == mt);
    }
    assert forall|x: u32| covers(nr.bits, x) implies is_input(mts, dcs, x) by {
        lemma_covers_zero_mask(mt, x);
    }
}

/// Whether some row of `v` carries exactly the pattern `(b0, b1)`.
fn contains_bits(v: &Vec<MintermTableRow>, b0: u32, b1: u32) -> (r: bool)
    ensures
        r <==> exists|j: int| 0 <= j < v@.len() && (#[trigger] v@[j]).bits == (b0, b1),
{
    let mut j: usize = 0;
    while j < v.len()
        invariant
            j <= v@.len(),
            forall|q: int| 0 <= q < j ==> (#[trigger] v@[q]).bits != (b0, b1),
        decreases v@.len() - j,
    {
        if v[j].bits.0 == b0 && v[j].bits.1 == b1 {
            return true;
        }
        j = j + 1;
    }
    false
}

/// Removes rows whose bit pattern already occurred earlier in the table;
/// the first occurrence stays.
fn dedup_rows(
    next: Vec<MintermTableRow>,
    Ghost(mts): Ghost<Seq<u32>>,
    Ghost(dcs): Ghost<Seq<u32>>,
    Ghost(n): Ghost<nat>,
    Ghost(t): Ghost<nat>,
) -> (r: Vec<MintermTableRow>)
    requires
        good_table(next@, mts, dcs, n, t),
        forall|i: int| 0 <= i < next@.len() ==> !(#[trigger] next@[i]).combined,
    ensures
        good_table(r@, mts, dcs, n, t),
        forall|i: int| 0 <= i < r@.len() ==> !(#[trigger] r@[i]).combined,
        forall|i: int, i2: int| 0 <= i < i2 < r@.len() ==> r@[i].bits != r@[i2].bits,
        next@.len() > 0 ==> r@.len() > 0,
        forall|x: u32|
            is_input(mts, dcs, x) && has_live_row(next@, x) ==> has_live_row(r@, x),
{
    let mut out: Vec<MintermTableRow> = Vec::new();
    let mut i: usize = 0;
    while i < next.len()
        invariant
            i <= next@.len(),
            good_table(next@, mts, dcs, n, t),
            good_table(out@, mts, dcs, n, t),
            forall|q: int| 0 <= q < out@.len() ==> !(#[trigger] out@[q]).combined,
            forall|q: int, q2: int| 0 <= q < q2 < out@.len() ==> out@[q].bits != out@[q2].bits,
            forall|q: int| 0 <= q < next@.len() ==> !(#[trigger] next@[q]).combined,
            i > 0 ==> out@.len() > 0,
            forall|i2: int|
                0 <= i2 < i ==> exists|q: int|
                    0 <= q < out@.len() && (#[trigger] out@[q]).bits == (#[trigger] next@[i2]).bits,
        decreases next@.len() - i,
    {
        let ghost out_before = out@;
        let b0 = next[i].bits.0;
        let b1 = next[i].bits.1;
        let dup = contains_bits(&out, b0, b1);
        if !dup {
            let nr = next[i].duplicate();
            proof {
                assert(good_row(next@[i as int], mts, dcs, n, t));
                assert(nr.minterms@ == next@[i as int].minterms@ && nr.bits == next@[i as int].bits);
            }
            out.push(nr);
            proof {
                assert forall|q: int, q2: int|
                    0 <= q < q2 < out@.len() implies out@[q].bits != out@[q2].bits by {
                    if q2 < out@.len() - 1 {
                        assert(out@[q] == out_before[q] && out@[q2] == out_before[q2]);
                    } else {
                        assert(out@[q] == out_before[q]);
                        assert(out@[q2].bits == (b0, b1));
                    }
                }
            }
        }
        proof {
            assert(next@[i as int].bits == (b0, b1));
            assert(exists|q: int|
                0 <= q < out@.len() && (#[trigger] out@[q]).bits == next@[i as int].bits) by {
                if dup {
                    let q = choose|q: int|
                        0 <= q < out_before.len() && (#[trigger] out_before[q]).bits == (b0, b1);
                    assert(out@[q].bits == next@[i as int].bits);
                } else {
                    assert(out@[out@.len() - 1].bits == next@[i as int].bits);
                }
            }
            assert forall|i2: int| 0 <= i2 < i + 1 implies exists|q: int|
                0 <= q < out@.len() && (#[trigger] out@[q]).bits == (#[trigger] next@[i2]).bits by {
                if i2 < i {
                    let q = choose|q: int|
                        0 <= q < out_before.len() && (#[trigger] out_before[q]).bits == (
                        #[trigger] next@[i2]).bits;
                    assert(out@[q].bits == next@[i2].bits);
                }
            }
        }
        i = i + 1;
    }
    proof {
        assert forall|x: u32| is_input(mts, dcs, x) && has_live_row(next@, x) implies has_live_row(
            out@,
            x,
        ) by {
            let w = choose|w: int|
                0 <= w < next@.len() && !(#[trigger] next@[w]).combined
                    && next@[w].minterms@.contains(x);
            let y = choose|y: int|
                0 <= y < next@[w].minterms@.len() && next@[w].minterms@[y] == x;
            assert(covers(next@[w].bits, x));
            let q = choose|q: int|
                0 <= q < out@.len() && (#[trigger] out@[q]).bits == next@[w].bits;
            assert(covers(out@[q].bits, x));
            assert(out@[q].minterms@.contains(x));
        }
    }
    out
}

/// The union of two duplicate-free lists: the first list, then those
/// entries of the second not already present.
pub fn merge_lists(a: &Vec<u32>, b: &Vec<u32>) -> (r: Vec<u32>)
    requires
        a@.no_duplicates(),
        b@.no_duplicates(),
    ensures
        r@.no_duplicates(),
        forall|y: u32| r@.contains(y) <==> a@.contains(y) || b@.contains(y),
        r@.len() >= a@.len(),
{
    let mut r = copy_values(a);
    let mut j: usize = 0;
    while j < b.len()
        invariant
            j <= b@.len(),
            r@.no_duplicates(),
            r@.len() >= a@.len(),
            forall|y: u32|
                r@.contains(y) <==> a@.contains(y) || exists|idx: int|
                    0 <= idx < j && b@[idx] == y,
            a@.no_duplicates(),
            b@.no_duplicates(),
        decreases b@.len() - j,
    {
        let ghost r_before = r@;
        let y = b[j];
        if !contains_value(a, y) {
            if !contains_value(&r, y) {
                r.push(y);
                proof {
                    assert(forall|q: int| 0 <= q < r_before.len() ==> r@[q] == r_before[q]);
                    assert forall|q: int| 0 <= q < r_before.len() implies r@[q] != y by {
                        if r@[q] == y {
                            assert(r_before.contains(y));
                        }
                    }
                }
            }
        }
        proof {
            assert forall|y2: u32| r@.contains(y2) implies a@.contains(y2) || exists|idx: int|
                0 <= idx < j + 1 && b@[idx] == y2 by {
                let q = choose|q: int| 0 <= q < r@.len() && r@[q] == y2;
                if q < r_before.len() {
                    assert(r_before.contains(y2)) by {
                        assert(r_before[q] == y2);
                    }
                } else {
                    assert(y2 == b@[j as int]);
                }
            }
            assert forall|y2: u32| a@.contains(y2) || (exists|idx: int|
                0 <= idx < j + 1 && b@[idx] == y2) implies r@.contains(y2) by {
                let ghost in_prefix = exists|idx: int| 0 <= idx < j && b@[idx] == y2;
                if a@.contains(y2) || in_prefix {
                    assert(r_before.contains(y2));
                    let q = choose|q: int| 0 <= q < r_before.len() && r_before[q] == y2;
                    assert(r@[q] == y2);
                } else {
                    assert(y2 == b@[j as int]);
                    assert(r@.contains(y2)) by {
                        assert(r@[r@.len() - 1] == y2);
                    }
                }
            }
        }
        j = j + 1;
    }
    r
}

/// Rows in ascending order of care-bit population count.
pub open spec fn sorted_by_ones(s: Seq<MintermTableRow>) -> bool {
    forall|i: int, j: int|
        0 <= i <= j < s.len() ==> ones(#[trigger] s[i].bits.0) <= ones(#[trigger] s[j].bits.0)
}

/// Stable sort of the rows by care-bit population count.
pub fn sort_rows(v: Vec<MintermTableRow>) -> (r: Vec<MintermTableRow>)
    ensures
        r@.len() == v@.len(),
        sorted_by_ones(r@),
        forall|row: MintermTableRow| r@.contains(row) ==> v@.contains(row),
        forall|row: MintermTableRow| v@.contains(row) ==> r@.contains(row),
{
    let mut src = v;
    let mut r: Vec<MintermTableRow> = Vec::new();
    let ghost orig = src@;
    while src.len() > 0
        invariant
            sorted_by_ones(r@),
            r@.len() + src@.len() == orig.len(),
            forall|row: MintermTableRow| r@.contains(row) ==> orig.contains(row),
            forall|row: MintermTableRow| src@.contains(row) ==> orig.contains(row),
            forall|row: MintermTableRow| orig.contains(row) ==> r@.contains(row)
                || src@.contains(row),
        decreases src@.len(),
    {
        let ghost src_before = src@;
        let ghost r_before = r@;
        let x = src.pop().unwrap();
        let k = x.high_bits_count();
        let mut p: usize = 0;
        while p < r.len() && r[p].high_bits_count() < k
            invariant
                p <= r@.len(),
                k == ones(x.bits.0),
                forall|q: int| 0 <= q < p ==> ones(#[trigger] r@[q].bits.0) < k,
            decreases r@.len() - p,
        {
            p = p + 1;
        }
        let ghost p_int = p as int;
        r.insert(p, x);
        proof {
            r_before.insert_ensures(p_int, x);
            assert forall|i: int, j: int| 0 <= i <= j < r@.len() implies ones(
                #[trigger] r@[i].bits.0,
            ) <= ones(#[trigger] r@[j].bits.0) by {
                if i < p_int && j < p_int {
                    assert(r@[i] == r_before[i] && r@[j] == r_before[j]);
                } else if i < p_int && j == p_int {
                    assert(r@[i] == r_before[i] && r@[j] == x);
                } else if i < p_int && j > p_int {
                    assert(r@[i] == r_before[i] && r@[j] == r_before[j - 1]);
                } else if i == p_int && j == p_int {
                } else if i == p_int && j > p_int {
                    assert(r@[j] == r_before[j - 1]);
                    if p_int < r_before.len() {
                        assert(ones(r_before[p_int].bits.0) >= k);
                        assert(ones(r@[j].bits.0) >= ones(r_before[p_int].bits.0));
                    }
                } else {
                    assert(r@[i] == r_before[i - 1] && r@[j] == r_before[j - 1]);
                }
            }
            assert(src_before.contains(x)) by {
                assert(src_before[src_before.len() - 1] == x);
            }
            assert forall|row: MintermTableRow| r@.contains(row) implies orig.contains(row) by {
                let idx = choose|idx: int| 0 <= idx < r@.len() && r@[idx] == row;
                if idx < p_int {
                    assert(r_before.contains(row)) by {
                        assert(r_before[idx] == row);
                    }
                } else if idx == p_int {
                } else {
                    assert(r_before.contains(row)) by {
                        assert(r_before[idx - 1] == row);
                    }
                }
            }
            assert forall|row: MintermTableRow| orig.contains(row) implies r@.contains(row)
                || src@.contains(row) by {
                if r_before.contains(row) {
                    let idx = choose|idx: int| 0 <= idx < r_before.len() && r_before[idx] == row;
                    if idx < p_int {
                        assert(r@[idx] == row);
                    } else {
                        assert(r@[idx + 1] == row);
                    }
                } else if src_before.contains(row) {
                    let idx = choose|idx: int|
                        0 <= idx < src_before.len() && src_before[idx] == row;
                    if idx < src_before.len() - 1 {
                        assert(src@[idx] == row);
                    } else {
                        assert(row == x);
                        assert(r@[p_int] == x);
                    }
                }
            }
            assert forall|row: MintermTableRow| src@.contains(row) implies orig.contains(row) by {
                let idx = choose|idx: int| 0 <= idx < src@.len() && src@[idx] == row;
                assert(src_before[idx] == row);
            }
        }
    }
    r
}

/// The index of the first row whose care-bit population count is `g`.
pub fn find_first_with_count(t: &Vec<MintermTableRow>, g: usize) -> (r: Option<usize>)
    ensures
        match r {
            Some(p) => p < t@.len() && ones(t@[p as int].bits.0) == g && forall|q: int|
                0 <= q < p ==> ones(#[trigger] t@[q].bits.0) != g,
            None => forall|q: int| 0 <= q < t@.len() ==> ones(#[trigger] t@[q].bits.0) != g,
        },
{
    let mut p: usize = 0;
    while p < t.len()
        invariant
            p <= t@.len(),
            forall|q: int| 0 <= q < p ==> ones(#[trigger] t@[q].bits.0) != g,
        decreases t@.len() - p,
    {
        if t[p].high_bits_count() == g {
            return Some(p);
        }
        p = p + 1;
    }
    None
}

/// The first present group start after the pair `(g, g + 1)`, or `default`
/// when every later group is absent.
pub fn find_next_start(groups: &Vec<Option<usize>>, g: usize, default: usize) -> (r: usize)
    requires
        g + 2 <= usize::MAX,
    ensures
        ({
            ||| (r == default && forall|h: int|
                g + 2 <= h < groups@.len() ==> (#[trigger] groups@[h]) is None)
            ||| (exists|h: int|
                g + 2 <= h < groups@.len() && #[trigger] groups@[h] == Some(r) && forall|h2: int|
                    g + 2 <= h2 < h ==> (#[trigger] groups@[h2]) is None)
        }),
{
    let mut h: usize = g + 2;
    while h < groups.len()
        invariant
            g + 2 <= h,
            forall|h2: int| g + 2 <= h2 < h ==> (#[trigger] groups@[h2]) is None,
        decreases groups@.len() - h,
    {
        if let Some(p) = groups[h] {
            return p;
        }
        h = h + 1;
    }
    default
}

/// Relies on rayon 1.12: `par_iter().enumerate().flat_map(..).collect()`
/// over a slice produces exactly the elements the sequential iteration
/// would produce, in the same order (rayon's `FromParallelIterator` for
/// `Vec` concatenates the per-split results in split order; its `flat_map`
/// documentation shows the ordered result). The scan itself only reads the
/// table; each per-row computation is the verified `pairs_for_row`.
#[verifier::external_body]
fn scan_pairs(t: &Vec<MintermTableRow>, f0: usize, f1: usize, s1: usize) -> (r: Vec<
    (usize, usize, u32),
>)
    requires
        f0 <= f1,
        f1 <= s1,
        s1 <= t@.len(),
    ensures
        r@ == spec_scan(t@, f0 as int, f1 as int, f1 as int, s1 as int),
{
    t[f0..f1]
        .par_iter()
        .enumerate()
        .flat_map(|(i, _row)| pairs_for_row(f0, i, t, f1, s1))
        .collect()
}

/// Some prime collected so far subsumes `x`.
pub open spec fn prime_has(primes: Seq<MintermTableRow>, x: u32) -> bool {
    exists|j: int| 0 <= j < primes.len() && (#[trigger] primes[j]).minterms@.contains(x)
}

/// Some uncombined row at position `(t, i)` or later subsumes `x`.
pub open spec fn remaining_live(tables: Seq<Vec<MintermTableRow>>, t: int, i: int, x: u32) -> bool {
    exists|tt: int, ii: int|
        #![trigger tables[tt]@[ii]]
        0 <= tt < tables.len() && 0 <= ii < tables[tt]@.len() && (tt > t || (tt == t
            && ii >= i)) && !tables[tt]@[ii].combined && tables[tt]@[ii].minterms@.contains(x)
}

/// A collected prime implicant: exact, duplicate-free, non-empty.
pub open spec fn prime_row(row: MintermTableRow, mts: Seq<u32>, dcs: Seq<u32>) -> bool {
    &&& row_exact(row, mts, dcs)
    &&& row.minterms@.no_duplicates()
    &&& row.minterms@.len() > 0
}

/// The prime implicants of the boolean function given by `minterms` and
/// `dont_cares` over `num_vars` input variables: all implicants that the
/// iterated pairwise merging never absorbed into a wider one.
///
/// Each returned row subsumes exactly the original inputs its pattern
/// covers, and every original input is subsumed by some returned row.
#[verifier::loop_isolation(false)]
#[verifier::rlimit(100)]
pub fn prime_implicants(minterms: &Vec<u32>, dont_cares: &Vec<u32>, num_vars: usize) -> (primes:
    Vec<MintermTableRow>)
    requires
        1 <= num_vars <= 63,
        minterms@.len() > 0,
        forall|i: int|
            0 <= i < minterms@.len() ==> fits(#[trigger] minterms@[i], num_vars as nat),
        forall|i: int|
            0 <= i < dont_cares@.len() ==> fits(#[trigger] dont_cares@[i], num_vars as nat),
    ensures
        forall|j: int|
            0 <= j < primes@.len() ==> prime_row(#[trigger] primes@[j], minterms@, dont_cares@),
        forall|x: u32| is_input(minterms@, dont_cares@, x) ==> prime_has(primes@, x),
{
    let ghost mts = minterms@;
    let ghost dcs = dont_cares@;
    let ghost n = num_vars as nat;
    let t0 = build_first_table(minterms, dont_cares, num_vars);
    let mut tables: Vec<Vec<MintermTableRow>> = Vec::new();
    tables.push(t0);
    proof {
        assert forall|x: u32| is_input(mts, dcs, x) implies tables_cover(tables@, x) by {
            assert(has_live_row(tables@[0]@, x));
        }
    }
    let mut done = false;
    while !done
        invariant
            1 <= tables@.len() <= 34,
            forall|t: int|
                0 <= t < tables@.len() ==> good_table((#[trigger] tables@[t])@, mts, dcs, n,
                t as nat),
            forall|x: u32| is_input(mts, dcs, x) ==> tables_cover(tables@, x),
            !done ==> tables@[tables@.len() - 1]@.len() > 0,
            !done ==> tables@.len() <= 33,
        decreases (if done { 0int } else { 40 - tables@.len() }),
    {
        let ghost tables_at_entry = tables@;
        let prev0 = tables.pop().unwrap();
        let ghost pt = tables@.len() as nat;
        let mut prev = sort_rows(prev0);
        let ghost snap = prev@;
        proof {
            assert forall|q: int| 0 <= q < prev@.len() implies good_row(
                #[trigger] prev@[q],
                mts,
                dcs,
                n,
                pt,
            ) by {
                assert(prev@.contains(prev@[q]));
                let q0 = choose|q0: int| 0 <= q0 < prev0@.len() && prev0@[q0] == prev@[q];
                assert(good_row(prev0@[q0], mts, dcs, n, pt));
            }
            assert(same_rows_mod_combined(prev@, snap));
            assert forall|x: u32| is_input(mts, dcs, x) implies tables_cover(tables@, x)
                || has_live_row(prev@, x) by {
                let t = choose|t: int|
                    0 <= t < tables_at_entry.len() && has_live_row(
                        (#[trigger] tables_at_entry[t])@,
                        x,
                    );
                if t < tables@.len() {
                    assert(has_live_row(tables@[t]@, x));
                } else {
                    let w = choose|w: int|
                        0 <= w < prev0@.len() && !(#[trigger] prev0@[w]).combined
                            && prev0@[w].minterms@.contains(x);
                    assert(prev0@.contains(prev0@[w]));
                    let w2 = choose|w2: int| 0 <= w2 < prev@.len() && prev@[w2] == prev0@[w];
                    assert(has_live_row(prev@, x)) by {
                        assert(!prev@[w2].combined && prev@[w2].minterms@.contains(x));
                    }
                }
            }
        }
        let mut groups: Vec<Option<usize>> = Vec::new();
        let mut g: usize = 0;
        while g < num_vars + 1
            invariant
                groups@.len() == g,
            g <= num_vars + 1,
            forall|h: int| 0 <= h < g ==> group_start_ok(snap, h, #[trigger] groups@[h]),
        decreases num_vars + 1 - g,
        {
            groups.push(find_first_with_count(&prev, g));
            g = g + 1;
        }
        let mut next: Vec<MintermTableRow> = Vec::new();
        let mut group: usize = 0;
        while group + 1 < groups.len()
            invariant
                group <= groups@.len(),
                same_rows_mod_combined(prev@, snap),
                good_table(prev@, mts, dcs, n, pt),
                good_table(next@, mts, dcs, n, (pt + 1) as nat),
                forall|q: int| 0 <= q < next@.len() ==> !(#[trigger] next@[q]).combined,
                forall|x: u32|
                    is_input(mts, dcs, x) ==> tables_cover(tables@, x) || has_live_row(prev@, x)
                        || has_live_row(next@, x),
            decreases groups@.len() - group,
        {
            let fs_opt = groups[group];
            let ss_opt = groups[group + 1];
            if fs_opt.is_some() && ss_opt.is_some() {
                let fs = fs_opt.unwrap();
                let ss = ss_opt.unwrap();
                let se = find_next_start(&groups, group, prev.len());
                proof {
                    assert(group_start_ok(snap, group as int, Some(fs)));
                    assert(group_start_ok(snap, group + 1 as int, Some(ss)));
                    assert(fs < ss) by {
                        if ss <= fs {
                            assert(ones(snap[fs as int].bits.0) <= ones(snap[ss as int].bits.0));
                        }
                    }
                    assert(ss <= se <= snap.len()) by {
                        if se != snap.len() || !(forall|h: int|
                            group + 2 <= h < groups@.len() ==> (#[trigger] groups@[h]) is None) {
                            let h = choose|h: int|
                                group + 2 <= h < groups@.len() && #[trigger] groups@[h] == Some(se)
                                    && forall|h2: int|
                                    group + 2 <= h2 < h ==> (#[trigger] groups@[h2]) is None;
                            assert(group_start_ok(snap, h, Some(se)));
                            if se < ss {
                                assert(ones(snap[se as int].bits.0) <= ones(
                                    snap[ss as int].bits.0,
                                ));
                            }
                        }
                    }
                    assert forall|q: int| fs <= q < ss implies ones(
                        (#[trigger] snap[q]).bits.0,
                    ) == group by {
                        assert(ones(snap[fs as int].bits.0) <= ones(snap[q].bits.0));
                        assert(ones(snap[q].bits.0) <= ones(snap[ss as int].bits.0));
                    }
                    assert forall|q: int| ss <= q < se implies ones(
                        (#[trigger] snap[q]).bits.0,
                    ) == group + 1 by {
                        assert(ones(snap[ss as int].bits.0) <= ones(snap[q].bits.0));
                        let h2 = ones(snap[q].bits.0) as int;
                        if h2 > group + 1 {
                            assert(fits(snap[q].bits.0, n)) by {
                                assert(good_row(prev@[q], mts, dcs, n, pt));
                            }
                            crate::bitmath::lemma_fits_ones(snap[q].bits.0, n);
                            assert(h2 < groups@.len());
                            if se == snap.len() && (forall|h: int|
                                group + 2 <= h < groups@.len() ==> (#[trigger] groups@[h])
                                    is None) {
                                assert(group_start_ok(snap, h2, groups@[h2]));
                                assert(groups@[h2] is None);
                            } else {
                                let h0 = choose|h0: int|
                                    group + 2 <= h0 < groups@.len() && #[trigger] groups@[h0]
                                        == Some(se) && forall|h3: int|
                                        group + 2 <= h3 < h0 ==> (#[trigger] groups@[h3]) is None;
                                assert(group_start_ok(snap, h0, Some(se)));
                                assert(group_start_ok(snap, h2, groups@[h2]));
                                if h2 < h0 {
                                    assert(groups@[h2] is None);
                                } else {
                                    let p2 = groups@[h2].unwrap();
                                    assert(ones(snap[p2 as int].bits.0) == h2);
                                    if p2 < se {
                                        assert(ones(snap[p2 as int].bits.0) <= ones(
                                            snap[se as int].bits.0,
                                        ));
                                        assert(ones(snap[se as int].bits.0) == h0);
                                    }
                                    assert(q < p2);
                                    assert(ones(snap[q].bits.0) != h2);
                                }
                            }
                        }
                    }
                }
                let pairs = scan_pairs(&prev, fs, ss, se);
                let ghost scan_t = prev@;
                let mut pi: usize = 0;
                while pi < pairs.len()
                    invariant
                        same_rows_mod_combined(prev@, snap),
                        good_table(prev@, mts, dcs, n, pt),
                        good_table(next@, mts, dcs, n, (pt + 1) as nat),
                        forall|q: int| 0 <= q < next@.len() ==> !(#[trigger] next@[q]).combined,
                        forall|x: u32|
                            is_input(mts, dcs, x) ==> tables_cover(tables@, x) || has_live_row(
                                prev@,
                                x,
                            ) || has_live_row(next@, x),
                    decreases pairs@.len() - pi,
                {
                    let ghost prev_before = prev@;
                    let ghost next_before = next@;
                    proof {
                        lemma_scan_props(
                            scan_t,
                            fs as int,
                            ss as int,
                            ss as int,
                            se as int,
                            pi as int,
                        );
                    }
                    let trip = pairs[pi];
                    let a = trip.0;
                    let b = trip.1;
                    let db = trip.2;
                    proof {
                        assert(combinable(prev@[a as int], prev@[b as int])) by {
                            assert(prev@[a as int].bits == scan_t[a as int].bits);
                            assert(prev@[b as int].bits == scan_t[b as int].bits);
                        }
                        lemma_low_bit(prev@[a as int].bits.0 ^ prev@[b as int].bits.0);
                        assert(good_row(prev@[a as int], mts, dcs, n, pt));
                        assert(good_row(prev@[b as int], mts, dcs, n, pt));
                    }
                    let merged = merge_lists(&prev[a].minterms, &prev[b].minterms);
                    let nb0 = prev[a].bits.0;
                    let nb1 = prev[a].bits.1 ^ (1u32 << db);
                    let nr = MintermTableRow { minterms: merged, bits: (nb0, nb1), combined: false };
                    proof {
                        assert(ones(prev@[a as int].bits.0) == group && ones(
                            prev@[b as int].bits.0,
                        ) == group + 1) by {
                            assert(prev@[a as int].bits == snap[a as int].bits);
                            assert(prev@[b as int].bits == snap[b as int].bits);
                        }
                        assert(nr.minterms@.len() >= prev@[a as int].minterms@.len());
                        lemma_merge_good(
                            prev@[a as int],
                            prev@[b as int],
                            nr,
                            mts,
                            dcs,
                            n,
                            pt,
                            group as nat,
                        );
                    }
                    next.push(nr);
                    let mut ca = prev[a].duplicate();
                    ca.combined = true;
                    prev.set(a, ca);
                    let mut cb = prev[b].duplicate();
                    cb.combined = true;
                    prev.set(b, cb);
                    proof {
                        assert(same_rows_mod_combined(prev@, snap));
                        assert forall|q: int| 0 <= q < prev@.len() implies good_row(
                            #[trigger] prev@[q],
                            mts,
                            dcs,
                            n,
                            pt,
                        ) by {
                            assert(good_row(prev_before[q], mts, dcs, n, pt));
                            assert(prev@[q].bits == prev_before[q].bits && prev@[q].minterms@
                                == prev_before[q].minterms@);
                        }
                        assert forall|x: u32| is_input(mts, dcs, x) implies tables_cover(
                            tables@,
                            x,
                        ) || has_live_row(prev@, x) || has_live_row(next@, x) by {
                            if !tables_cover(tables@, x) {
                                if has_live_row(prev_before, x) {
                                    let w = choose|w: int|
                                        0 <= w < prev_before.len() && !(
                                        #[trigger] prev_before[w]).combined
                                            && prev_before[w].minterms@.contains(x);
                                    if w != a && w != b {
                                        assert(has_live_row(prev@, x)) by {
                                            assert(!prev@[w].combined
                                                && prev@[w].minterms@.contains(x));
                                        }
                                    } else {
                                        assert(has_live_row(next@, x)) by {
                                            assert(next@[next@.len() - 1].minterms@.contains(x));
                                            assert(!next@[next@.len() - 1].combined);
                                        }
                                    }
                                } else {
                                    let w = choose|w: int|
                                        0 <= w < next_before.len() && !(
                                        #[trigger] next_before[w]).combined
                                            && next_before[w].minterms@.contains(x);
                                    assert(has_live_row(next@, x)) by {
                                        assert(!next@[w].combined && next@[w].minterms@.contains(
                                            x,
                                        ));
                                    }
                                }
                            }
                        }
                    }
                    pi = pi + 1;
                }
            }
            group = group + 1;
        }
        let next = dedup_rows(next, Ghost(mts), Ghost(dcs), Ghost(n), Ghost((pt + 1) as nat));
        let empty = next.is_empty();
        let ghost tables_before_push = tables@;
        let ghost prev_view = prev@;
        tables.push(prev);
        proof {
            assert forall|t: int| 0 <= t < tables@.len() implies good_table(
                (#[trigger] tables@[t])@,
                mts,
                dcs,
                n,
                t as nat,
            ) by {
                if t < tables_before_push.len() {
                    assert(tables@[t] == tables_before_push[t]);
                } else {
                    assert(tables@[t]@ == prev_view);
                }
            }
        }
        if empty {
            done = true;
            proof {
                assert forall|x: u32| is_input(mts, dcs, x) implies tables_cover(tables@, x) by {
                    if !tables_cover(tables_before_push, x) {
                        assert(tables_cover(tables_before_push, x) || has_live_row(prev_view, x)
                            || has_live_row(next@, x));
                        assert(!has_live_row(next@, x));
                        assert(has_live_row(tables@[tables@.len() - 1]@, x));
                    } else {
                        let t = choose|t: int|
                            0 <= t < tables_before_push.len() && has_live_row(
                                (#[trigger] tables_before_push[t])@,
                                x,
                            );
                        assert(has_live_row(tables@[t]@, x));
                    }
                }
            }
        } else {
            proof {
                assert(good_row(next@[0], mts, dcs, n, (pt + 1) as nat));
                lemma_ones_le_32(next@[0].bits.1);
            }
            let ghost tables_mid = tables@;
            let ghost next_view = next@;
            tables.push(next);
            proof {
                assert forall|t: int| 0 <= t < tables@.len() implies good_table(
                    (#[trigger] tables@[t])@,
                    mts,
                    dcs,
                    n,
                    t as nat,
                ) by {
                    if t < tables_mid.len() {
                        assert(tables@[t] == tables_mid[t]);
                    } else {
                        assert(tables@[t]@ == next_view);
                    }
                }
                assert forall|x: u32| is_input(mts, dcs, x) implies tables_cover(tables@, x) by {
                    if tables_cover(tables_before_push, x) {
                        let t = choose|t: int|
                            0 <= t < tables_before_push.len() && has_live_row(
                                (#[trigger] tables_before_push[t])@,
                                x,
                            );
                        assert(has_live_row(tables@[t]@, x));
                    } else if has_live_row(prev_view, x) {
                        assert(has_live_row(tables@[tables@.len() - 2]@, x));
                    } else {
                        assert(has_live_row(tables@[tables@.len() - 1]@, x));
                    }
                }
            }
        }
    }
    let mut primes: Vec<MintermTableRow> = Vec::new();
    proof {
        assert forall|x: u32| is_input(mts, dcs, x) implies remaining_live(tables@, 0, 0, x)
            || prime_has(primes@, x) by {
            let t = choose|t: int|
                0 <= t < tables@.len() && has_live_row((#[trigger] tables@[t])@, x);
            let w = choose|w: int|
                0 <= w < tables@[t]@.len() && !(#[trigger] tables@[t]@[w]).combined
                    && tables@[t]@[w].minterms@.contains(x);
            assert(0 <= t < tables@.len() && 0 <= w < tables@[t]@.len() && (t > 0 || (t == 0 && w
                >= 0)) && !tables@[t]@[w].combined && tables@[t]@[w].minterms@.contains(x));
        }
    }
    let mut t: usize = 0;
    while t < tables.len()
        invariant
            t <= tables@.len(),
            forall|j: int|
                0 <= j < primes@.len() ==> prime_row(#[trigger] primes@[j], mts, dcs),
            forall|x: u32|
                is_input(mts, dcs, x) ==> remaining_live(tables@, t as int, 0, x) || prime_has(
                    primes@,
                    x,
                ),
        decreases tables@.len() - t,
    {
        let mut i: usize = 0;
        while i < tables[t].len()
            invariant
                t < tables@.len(),
                i <= tables@[t as int]@.len(),
                forall|j: int|
                    0 <= j < primes@.len() ==> prime_row(#[trigger] primes@[j], mts, dcs),
                forall|x: u32|
                    is_input(mts, dcs, x) ==> remaining_live(tables@, t as int, i as int, x)
                        || prime_has(primes@, x),
            decreases tables@[t as int]@.len() - i,
        {
            let ghost primes_before = primes@;
            let tb = &tables[t];
            if !tb[i].combined {
                let nr = tb[i].duplicate();
                proof {
                    assert(good_row(tables@[t as int]@[i as int], mts, dcs, n, t as nat));
                    assert(nr.minterms@ == tables@[t as int]@[i as int].minterms@ && nr.bits
                        == tables@[t as int]@[i as int].bits);
                }
                primes.push(nr);
            }
            proof {
                assert forall|x: u32| is_input(mts, dcs, x) implies remaining_live(
                    tables@,
                    t as int,
                    i + 1,
                    x,
                ) || prime_has(primes@, x) by {
                    if prime_has(primes_before, x) {
                        let j = choose|j: int|
                            0 <= j < primes_before.len() && (
                            #[trigger] primes_before[j]).minterms@.contains(x);
                        assert(prime_has(primes@, x)) by {
                            assert(primes@[j].minterms@.contains(x));
                        }
                    } else if remaining_live(tables@, t as int, i as int, x) {
                        let (tt, ii) = choose|tt: int, ii: int|
                            #![trigger tables@[tt]@[ii]]
                            0 <= tt < tables@.len() && 0 <= ii < tables@[tt]@.len()
                                && (tt > t || (tt == t && ii >= i)) && !tables@[tt]@[ii].combined
                                && tables@[tt]@[ii].minterms@.contains(x);
                        if tt == t && ii == i {
                            assert(prime_has(primes@, x)) by {
                                assert(primes@[primes@.len() - 1].minterms@.contains(x));
                            }
                        } else {
                            assert(remaining_live(tables@, t as int, i + 1, x));
                        }
                    }
                }
            }
            i = i + 1;
        }
        proof {
            assert forall|x: u32| is_input(mts, dcs, x) implies remaining_live(
                tables@,
                t + 1,
                0,
                x,
            ) || prime_has(primes@, x) by {
                if remaining_live(tables@, t as int, tables@[t as int]@.len() as int, x) {
                    let (tt, ii) = choose|tt: int, ii: int|
                        #![trigger tables@[tt]@[ii]]
                        0 <= tt < tables@.len() && 0 <= ii < tables@[tt]@.len() && (tt
                            > t || (tt == t && ii >= tables@[t as int]@.len()))
                            && !tables@[tt]@[ii].combined && tables@[tt]@[ii].minterms@.contains(
                            x,
                        );
                    assert(tt > t);
                    assert(remaining_live(tables@, t + 1, 0, x));
                }
            }
        }
        t = t + 1;
    }
    primes
}

} // verus!
