//! The coverage selector: essential prime implicants, the minterms they
//! leave uncovered, and an exact minimum-cardinality cover of the rest,
//! found by enumerating every subset of the prime implicants.

use vstd::prelude::*;
use vstd::arithmetic::power2::pow2;
use crate::bitmath::covers;
use crate::row::{MintermTableRow, is_input, contains_value};
use crate::combine::{prime_has, prime_row};

verus! {

/// Two rows carrying the same pattern and minterm list.
pub open spec fn same_content(a: MintermTableRow, b: MintermTableRow) -> bool {
    a.minterms@ == b.minterms@ && a.bits == b.bits
}

/// `row` is a copy of some row of `from`.
pub open spec fn row_in(row: MintermTableRow, from: Seq<MintermTableRow>) -> bool {
    exists|k: int| 0 <= k < from.len() && same_content(row, #[trigger] from[k])
}

/// Every row of `rows` is a copy of some row of `from`.
pub open spec fn rows_from(rows: Seq<MintermTableRow>, from: Seq<MintermTableRow>) -> bool {
    forall|j: int| 0 <= j < rows.len() ==> row_in(#[trigger] rows[j], from)
}

/// Rows indexed into `from` by `idxs` are all copies of rows of `from`.
proof fn lemma_rows_from_idxs(rows: Seq<MintermTableRow>, from: Seq<MintermTableRow>, idxs: Seq<int>)
    requires
        idxs.len() == rows.len(),
        forall|j: int|
            0 <= j < rows.len() ==> 0 <= #[trigger] idxs[j] < from.len() && same_content(
                rows[j],
                from[idxs[j]],
            ),
    ensures
        rows_from(rows, from),
{
    assert forall|j: int| 0 <= j < rows.len() implies row_in(#[trigger] rows[j], from) by {
        assert(same_content(rows[j], from[idxs[j]]));
    }
}

/// Whether any row's minterm list holds `mt`.
pub fn rows_contain(rows: &Vec<MintermTableRow>, mt: u32) -> (r: bool)
    ensures
        r == prime_has(rows@, mt),
{
    let mut j: usize = 0;
    while j < rows.len()
        invariant
            j <= rows@.len(),
            forall|q: int| 0 <= q < j ==> !(#[trigger] rows@[q]).minterms@.contains(mt),
        decreases rows@.len() - j,
    {
        if contains_value(&rows[j].minterms, mt) {
            return true;
        }
        j = j + 1;
    }
    false
}

/// How many rows from position `j` on subsume `mt`.
pub open spec fn spec_count_covering(rows: Seq<MintermTableRow>, mt: u32, j: int) -> int
    decreases rows.len() - j,
{
    if j < 0 || j >= rows.len() {
        0
    } else {
        (if rows[j].minterms@.contains(mt) {
            1int
        } else {
            0int
        }) + spec_count_covering(rows, mt, j + 1)
    }
}

/// How often `mt` occurs over all the rows' minterm lists; with
/// duplicate-free lists, the number of rows that subsume `mt`.
pub fn count_covering(rows: &Vec<MintermTableRow>, mt: u32) -> (r: usize)
    requires
        forall|j: int| 0 <= j < rows@.len() ==> (#[trigger] rows@[j]).minterms@.no_duplicates(),
    ensures
        r == spec_count_covering(rows@, mt, 0),
{
    let mut count: usize = 0;
    let mut j: usize = 0;
    while j < rows.len()
        invariant
            j <= rows@.len(),
            count <= j,
            count + spec_count_covering(rows@, mt, j as int) == spec_count_covering(rows@, mt, 0),
            forall|j2: int|
                0 <= j2 < rows@.len() ==> (#[trigger] rows@[j2]).minterms@.no_duplicates(),
        decreases rows@.len() - j,
    {
        let list = &rows[j].minterms;
        let mut i: usize = 0;
        let mut here: usize = 0;
        while i < list.len()
            invariant
                i <= list@.len(),
                list@.no_duplicates(),
                here <= 1,
                here == 1 <==> exists|q: int| 0 <= q < i && list@[q] == mt,
            decreases list@.len() - i,
        {
            if list[i] == mt {
                proof {
                    if here == 1 {
                        let q = choose|q: int| 0 <= q < i && list@[q] == mt;
                        assert(list@[q] == list@[i as int]);
                        assert(false);
                    }
                }
                here = here + 1;
                proof {
                    assert(exists|q: int| 0 <= q < i + 1 && list@[q] == mt) by {
                        assert(list@[i as int] == mt);
                    }
                }
            }
            i = i + 1;
        }
        proof {
            if here == 1 {
                let q = choose|q: int| 0 <= q < i && list@[q] == mt;
                assert(rows@[j as int].minterms@.contains(mt));
            } else {
                if rows@[j as int].minterms@.contains(mt) {
                    let q = choose|q: int| 0 <= q < list@.len() && list@[q] == mt;
                    assert(false);
                }
            }
        }
        count = count + here;
        j = j + 1;
    }
    count
}

/// Prime `k` is essential: it subsumes some input that is not a
/// don't-care and that no other prime subsumes.
pub open spec fn is_essential(primes: Seq<MintermTableRow>, dcs: Seq<u32>, k: int) -> bool {
    exists|i: int|
        0 <= i < primes[k].minterms@.len() && !dcs.contains(#[trigger] primes[k].minterms@[i])
            && spec_count_covering(primes, primes[k].minterms@[i], 0) == 1
}

/// The essential prime implicants: those that are the unique cover of
/// some required minterm (don't-cares do not make a prime essential).
/// The ghost result lists the index each kept row came from; the kept
/// indices are distinct and are exactly the essential ones, in order.
pub fn essential_primes(primes: &Vec<MintermTableRow>, dont_cares: &Vec<u32>) -> (r: (
    Vec<MintermTableRow>,
    Ghost<Seq<int>>,
))
    requires
        forall|j: int| 0 <= j < primes@.len() ==> (#[trigger] primes@[j]).minterms@.no_duplicates(),
    ensures
        r.1@.len() == r.0@.len(),
        r.1@.no_duplicates(),
        forall|p: int, q: int| 0 <= p < q < r.1@.len() ==> r.1@[p] < r.1@[q],
        forall|j: int|
            0 <= j < r.0@.len() ==> 0 <= #[trigger] r.1@[j] < primes@.len() && same_content(
                r.0@[j],
                primes@[r.1@[j]],
            ) && is_essential(primes@, dont_cares@, r.1@[j]),
        forall|k: int|
            0 <= k < primes@.len() && #[trigger] is_essential(primes@, dont_cares@, k)
                ==> r.1@.contains(k),
{
    let mut ess: Vec<MintermTableRow> = Vec::new();
    let ghost mut idxs: Seq<int> = Seq::empty();
    let mut j: usize = 0;
    while j < primes.len()
        invariant
            j <= primes@.len(),
            forall|j2: int|
                0 <= j2 < primes@.len() ==> (#[trigger] primes@[j2]).minterms@.no_duplicates(),
            idxs.len() == ess@.len(),
            idxs.no_duplicates(),
            forall|p: int, q: int| 0 <= p < q < idxs.len() ==> idxs[p] < idxs[q],
            forall|p: int| 0 <= p < idxs.len() ==> 0 <= #[trigger] idxs[p] < j,
            forall|p: int|
                0 <= p < ess@.len() ==> same_content(#[trigger] ess@[p], primes@[idxs[p]])
                    && is_essential(primes@, dont_cares@, idxs[p]),
            forall|k: int|
                0 <= k < j && #[trigger] is_essential(primes@, dont_cares@, k) ==> idxs.contains(
                    k,
                ),
        decreases primes@.len() - j,
    {
        let ghost ess_before = ess@;
        let ghost idxs_before = idxs;
        let list = &primes[j].minterms;
        let mut essential = false;
        let mut i: usize = 0;
        while i < list.len() && !essential
            invariant
                i <= list@.len(),
                list@ == primes@[j as int].minterms@,
                j < primes@.len(),
                forall|j2: int|
                    0 <= j2 < primes@.len() ==> (
                    #[trigger] primes@[j2]).minterms@.no_duplicates(),
                essential ==> is_essential(primes@, dont_cares@, j as int),
                !essential ==> forall|i2: int|
                    0 <= i2 < i ==> dont_cares@.contains(#[trigger] list@[i2])
                        || spec_count_covering(primes@, list@[i2], 0) != 1,
            decreases list@.len() - i,
        {
            let mt = list[i];
            if !contains_value(dont_cares, mt) && count_covering(primes, mt) == 1 {
                essential = true;
                proof {
                    assert(mt == primes@[j as int].minterms@[i as int]);
                    assert(is_essential(primes@, dont_cares@, j as int)) by {
                        assert(!dont_cares@.contains(primes@[j as int].minterms@[i as int])
                            && spec_count_covering(
                            primes@,
                            primes@[j as int].minterms@[i as int],
                            0,
                        ) == 1);
                    }
                }
            }
            i = i + 1;
        }
        proof {
            if !essential && is_essential(primes@, dont_cares@, j as int) {
                let i2 = choose|i2: int|
                    0 <= i2 < primes@[j as int].minterms@.len() && !dont_cares@.contains(
                        #[trigger] primes@[j as int].minterms@[i2],
                    ) && spec_count_covering(primes@, primes@[j as int].minterms@[i2], 0) == 1;
                assert(false);
            }
        }
        if essential {
            let nr = primes[j].duplicate();
            ess.push(nr);
            proof {
                idxs = idxs_before.push(j as int);
                assert forall|p: int, q: int|
                    0 <= p < q < idxs.len() implies #[trigger] idxs[p] != #[trigger] idxs[q]
                    && idxs[p] < idxs[q] by {
                    if q < idxs.len() - 1 {
                        assert(idxs[p] == idxs_before[p] && idxs[q] == idxs_before[q]);
                        assert(idxs_before[p] != idxs_before[q] && idxs_before[p] < idxs_before[q]);
                    } else {
                        assert(idxs[p] == idxs_before[p] && idxs_before[p] < j && idxs[q] == j);
                    }
                }
                assert forall|p: int| 0 <= p < ess@.len() implies same_content(
                    #[trigger] ess@[p],
                    primes@[idxs[p]],
                ) && is_essential(primes@, dont_cares@, idxs[p]) by {
                    if p < ess_before.len() {
                        assert(ess@[p] == ess_before[p] && idxs[p] == idxs_before[p]);
                    } else {
                        assert(ess@[p] == nr && idxs[p] == j);
                    }
                }
            }
        }
        proof {
            assert forall|k: int|
                0 <= k < j + 1 && #[trigger] is_essential(primes@, dont_cares@, k) implies idxs
                .contains(k) by {
                if k < j {
                    let p = choose|p: int| 0 <= p < idxs_before.len() && idxs_before[p] == k;
                    assert(idxs[p] == k);
                } else {
                    assert(essential);
                    assert(idxs[idxs.len() - 1] == k);
                }
            }
        }
        j = j + 1;
    }
    (ess, Ghost(idxs))
}

/// The required minterms that the rows do not subsume.
pub fn uncovered_minterms(minterms: &Vec<u32>, rows: &Vec<MintermTableRow>) -> (unc: Vec<u32>)
    ensures
        forall|q: int| 0 <= q < unc@.len() ==> minterms@.contains(#[trigger] unc@[q]),
        forall|y: u32| unc@.contains(y) ==> !prime_has(rows@, y),
        forall|i: int|
            0 <= i < minterms@.len() && !prime_has(rows@, #[trigger] minterms@[i])
                ==> unc@.contains(minterms@[i]),
{
    let mut unc: Vec<u32> = Vec::new();
    let mut i: usize = 0;
    while i < minterms.len()
        invariant
            i <= minterms@.len(),
            forall|q: int| 0 <= q < unc@.len() ==> minterms@.contains(#[trigger] unc@[q]),
            forall|y: u32| unc@.contains(y) ==> !prime_has(rows@, y),
            forall|i2: int|
                0 <= i2 < i && !prime_has(rows@, #[trigger] minterms@[i2]) ==> unc@.contains(
                    minterms@[i2],
                ),
        decreases minterms@.len() - i,
    {
        let ghost unc_before = unc@;
        let mt = minterms[i];
        if !rows_contain(rows, mt) {
            unc.push(mt);
            proof {
                assert(minterms@.contains(mt)) by {
                    assert(minterms@[i as int] == mt);
                }
                assert forall|y: u32| unc@.contains(y) implies minterms@.contains(y)
                    && !prime_has(rows@, y) by {
                    let q = choose|q: int| 0 <= q < unc@.len() && unc@[q] == y;
                    if q < unc_before.len() {
                        assert(unc_before[q] == y);
                        assert(unc_before.contains(y));
                    } else {
                        assert(y == mt);
                    }
                }
                assert forall|i2: int|
                    0 <= i2 < i + 1 && !prime_has(rows@, #[trigger] minterms@[i2]) implies unc@
                    .contains(minterms@[i2]) by {
                    if i2 < i {
                        let q = choose|q: int|
                            0 <= q < unc_before.len() && unc_before[q] == minterms@[i2];
                        assert(unc@[q] == minterms@[i2]);
                    } else {
                        assert(unc@[unc@.len() - 1] == minterms@[i2]);
                    }
                }
            }
        }
        i = i + 1;
    }
    unc
}

/// The number encoded by the bits of `s` from position `j` on, least
/// significant first.
pub open spec fn ctr_val(s: Seq<bool>, j: int) -> int
    decreases s.len() - j,
{
    if j < 0 || j >= s.len() {
        0
    } else {
        (if s[j] {
            1int
        } else {
            0int
        }) + 2 * ctr_val(s, j + 1)
    }
}

/// The counter value is bounded by the width of the remaining bits.
pub proof fn lemma_ctr_bound(s: Seq<bool>, j: int)
    requires
        0 <= j <= s.len(),
    ensures
        0 <= ctr_val(s, j) < pow2((s.len() - j) as nat),
    decreases s.len() - j,
{
    if j == s.len() {
        vstd::arithmetic::power2::lemma2_to64();
    } else {
        lemma_ctr_bound(s, j + 1);
        vstd::arithmetic::power2::lemma_pow2_unfold((s.len() - j) as nat);
    }
}

/// Counter values agree when the bits from position `j` on agree.
pub proof fn lemma_ctr_congruent(s1: Seq<bool>, s2: Seq<bool>, j: int)
    requires
        s1.len() == s2.len(),
        forall|q: int| j <= q < s1.len() ==> s1[q] == s2[q],
    ensures
        ctr_val(s1, j) == ctr_val(s2, j),
    decreases s1.len() - j,
{
    if 0 <= j < s1.len() {
        lemma_ctr_congruent(s1, s2, j + 1);
    }
}

/// Binary increment of a little-endian bit vector; reports a wrap-around
/// back to zero, which happens exactly when every bit was set.
#[verifier::loop_isolation(false)]
pub fn incr_counter(c: &mut Vec<bool>) -> (wrapped: bool)
    ensures
        final(c)@.len() == old(c)@.len(),
        wrapped ==> forall|q: int| 0 <= q < old(c)@.len() ==> old(c)@[q],
        !wrapped ==> ctr_val(final(c)@, 0) == ctr_val(old(c)@, 0) + 1,
{
    let ghost orig = c@;
    proof {
        vstd::arithmetic::power2::lemma2_to64();
    }
    let mut i: usize = 0;
    while i < c.len()
        invariant
            i <= c@.len(),
            c@.len() == orig.len(),
            forall|q: int| 0 <= q < i ==> !c@[q],
            forall|q: int| 0 <= q < i ==> orig[q],
            forall|q: int| i <= q < c@.len() ==> c@[q] == orig[q],
            ctr_val(orig, 0) == ctr_val(c@, 0) + pow2(i as nat) - 1,
        decreases c@.len() - i,
    {
        let ghost before = c@;
        let ghost ii = i as int;
        proof {
            vstd::arithmetic::power2::lemma_pow2_unfold((i + 1) as nat);
        }
        if c[i] {
            c.set(i, false);
            proof {
                lemma_ctr_congruent(c@, before, ii + 1);
                lemma_ctr_step(before, ii);
                lemma_ctr_step(c@, ii);
                lemma_ctr_prefix_zero(before, 0, ii);
                lemma_ctr_prefix_zero(c@, 0, ii + 1);
                let v = ctr_val(before, ii + 1);
                assert(ctr_val(before, ii) == 1 + 2 * v);
                assert(ctr_val(before, 0) == pow2(i as nat) * (1 + 2 * v));
                assert(ctr_val(c@, 0) == pow2((i + 1) as nat) * v);
                assert(pow2(i as nat) * (1 + 2 * v) == pow2(i as nat) + (2 * pow2(i as nat))
                    * v) by (nonlinear_arith);
            }
            i = i + 1;
        } else {
            c.set(i, true);
            proof {
                lemma_ctr_congruent(c@, before, ii + 1);
                lemma_ctr_step(before, ii);
                lemma_ctr_step(c@, ii);
                lemma_ctr_prefix_zero(before, 0, ii);
                lemma_ctr_prefix_zero(c@, 0, ii);
                let v = ctr_val(before, ii + 1);
                assert(ctr_val(before, ii) == 2 * v);
                assert(ctr_val(c@, ii) == 1 + 2 * v);
                assert(ctr_val(before, 0) == pow2(i as nat) * (2 * v));
                assert(ctr_val(c@, 0) == pow2(i as nat) * (1 + 2 * v));
                assert(pow2(i as nat) * (1 + 2 * v) == pow2(i as nat) + pow2(i as nat) * (2
                    * v)) by (nonlinear_arith);
            }
            return false;
        }
    }
    proof {
        lemma_ctr_prefix_zero(c@, 0, c@.len() as int);
    }
    true
}

/// Unfolding of `ctr_val` at one position.
proof fn lemma_ctr_step(s: Seq<bool>, j: int)
    requires
        0 <= j < s.len(),
    ensures
        ctr_val(s, j) == (if s[j] {
            1int
        } else {
            0int
        }) + 2 * ctr_val(s, j + 1),
{
}

/// With the bits of `[j, e)` clear, the counter value from `j` is the
/// value from `e` scaled by the width skipped.
proof fn lemma_ctr_prefix_zero(s: Seq<bool>, j: int, e: int)
    requires
        0 <= j <= e <= s.len(),
        forall|q: int| j <= q < e ==> !s[q],
    ensures
        ctr_val(s, j) == pow2((e - j) as nat) * ctr_val(s, e),
    decreases e - j,
{
    if j == e {
        vstd::arithmetic::power2::lemma2_to64();
        assert(pow2(0) == 1);
        assert(ctr_val(s, j) == 1 * ctr_val(s, e));
    } else {
        lemma_ctr_prefix_zero(s, j + 1, e);
        vstd::arithmetic::power2::lemma_pow2_unfold((e - j) as nat);
        assert(!s[j]);
        assert(ctr_val(s, j) == 2 * ctr_val(s, j + 1));
        assert(ctr_val(s, j) == 2 * (pow2((e - j - 1) as nat) * ctr_val(s, e)));
        vstd::arithmetic::mul::lemma_mul_is_associative(
            2,
            pow2((e - j - 1) as nat) as int,
            ctr_val(s, e),
        );
        assert(ctr_val(s, j) == (2 * pow2((e - j - 1) as nat)) * ctr_val(s, e));
        assert(pow2((e - j) as nat) == 2 * pow2((e - j - 1) as nat));
    }
}


/// The number of set bits of `c` from position `j` on.
pub open spec fn count_true(c: Seq<bool>, j: int) -> int
    decreases c.len() - j,
{
    if j < 0 || j >= c.len() {
        0
    } else {
        (if c[j] {
            1int
        } else {
            0int
        }) + count_true(c, j + 1)
    }
}

/// Bit counts agree when the bits from position `j` on agree.
proof fn lemma_count_congruent(c1: Seq<bool>, c2: Seq<bool>, j: int)
    requires
        c1.len() == c2.len(),
        forall|q: int| j <= q < c1.len() ==> c1[q] == c2[q],
    ensures
        count_true(c1, j) == count_true(c2, j),
    decreases c1.len() - j,
{
    if 0 <= j < c1.len() {
        lemma_count_congruent(c1, c2, j + 1);
    }
}

/// Clearing a set bit lowers the bit count by one.
proof fn lemma_count_clear(c: Seq<bool>, t: int, j: int)
    requires
        0 <= j <= t < c.len(),
        c[t],
    ensures
        count_true(c.update(t, false), j) == count_true(c, j) - 1,
    decreases t - j,
{
    if j == t {
        lemma_count_congruent(c.update(t, false), c, j + 1);
    } else {
        lemma_count_clear(c, t, j + 1);
    }
}

/// The bit count is at most the number of remaining positions.
proof fn lemma_count_le(c: Seq<bool>, j: int)
    requires
        0 <= j <= c.len(),
    ensures
        count_true(c, j) <= c.len() - j,
    decreases c.len() - j,
{
    if j < c.len() {
        lemma_count_le(c, j + 1);
    }
}

/// A counter with no set bits counts zero.
proof fn lemma_count_zero(c: Seq<bool>, j: int)
    requires
        forall|q: int| 0 <= q < c.len() ==> !c[q],
    ensures
        count_true(c, j) == 0,
    decreases c.len() - j,
{
    if 0 <= j < c.len() {
        lemma_count_zero(c, j + 1);
    }
}

/// The bit count is never negative.
proof fn lemma_count_nonneg(c: Seq<bool>, j: int)
    ensures
        count_true(c, j) >= 0,
    decreases c.len() - j,
{
    if 0 <= j < c.len() {
        lemma_count_nonneg(c, j + 1);
    }
}

/// Counters of equal length and equal value hold the same bits.
proof fn lemma_ctr_injective(s1: Seq<bool>, s2: Seq<bool>, j: int)
    requires
        0 <= j <= s1.len(),
        s1.len() == s2.len(),
        ctr_val(s1, j) == ctr_val(s2, j),
    ensures
        forall|q: int| j <= q < s1.len() ==> s1[q] == s2[q],
    decreases s1.len() - j,
{
    if 0 <= j < s1.len() {
        lemma_ctr_bound(s1, j + 1);
        lemma_ctr_bound(s2, j + 1);
        assert(s1[j] == s2[j]) by {
            if s1[j] != s2[j] {
                assert(ctr_val(s1, j) - ctr_val(s2, j) == 1 + 2 * (ctr_val(s1, j + 1) - ctr_val(
                    s2,
                    j + 1,
                )) || ctr_val(s2, j) - ctr_val(s1, j) == 1 + 2 * (ctr_val(s2, j + 1) - ctr_val(
                    s1,
                    j + 1,
                )));
            }
        }
        lemma_ctr_injective(s1, s2, j + 1);
    }
}

/// An all-ones counter holds the largest value of its width.
proof fn lemma_ctr_all_true(s: Seq<bool>, j: int)
    requires
        0 <= j <= s.len(),
        forall|q: int| j <= q < s.len() ==> s[q],
    ensures
        ctr_val(s, j) == pow2((s.len() - j) as nat) - 1,
    decreases s.len() - j,
{
    if j == s.len() {
        vstd::arithmetic::power2::lemma2_to64();
    } else {
        lemma_ctr_all_true(s, j + 1);
        vstd::arithmetic::power2::lemma_pow2_unfold((s.len() - j) as nat);
    }
}

/// The set of clear-bit positions of `c` from `j` on has as many
/// elements as there are clear bits.
proof fn lemma_false_set_card(c: Seq<bool>, j: int)
    requires
        0 <= j <= c.len(),
    ensures
        Set::new(|t: int| j <= t < c.len() && !c[t]).finite(),
        Set::new(|t: int| j <= t < c.len() && !c[t]).len() == (c.len() - j) - count_true(c, j),
    decreases c.len() - j,
{
    let f = Set::new(|t: int| j <= t < c.len() && !c[t]);
    if j == c.len() {
        assert(f =~= Set::empty());
    } else {
        lemma_false_set_card(c, j + 1);
        let f1 = Set::new(|t: int| j + 1 <= t < c.len() && !c[t]);
        if c[j] {
            assert(f =~= f1);
        } else {
            assert(f =~= f1.insert(j));
            assert(!f1.contains(j));
        }
    }
}

/// The rows of `primes` selected by the set bits of `c`, in order.
fn subset_of(primes: &Vec<MintermTableRow>, c: &Vec<bool>) -> (r: (
    Vec<MintermTableRow>,
    Ghost<Seq<int>>,
))
    requires
        c@.len() == primes@.len(),
    ensures
        r.0@.len() == count_true(c@, 0),
        r.1@.len() == r.0@.len(),
        forall|j: int|
            0 <= j < r.0@.len() ==> 0 <= #[trigger] r.1@[j] < primes@.len() && c@[r.1@[j]]
                && same_content(r.0@[j], primes@[r.1@[j]]),
        forall|k: int|
            0 <= k < primes@.len() && c@[k] ==> exists|j: int|
                0 <= j < r.0@.len() && same_content(#[trigger] r.0@[j], primes@[k]),
{
    let mut sub: Vec<MintermTableRow> = Vec::new();
    let ghost mut idxs: Seq<int> = Seq::empty();
    let mut k: usize = 0;
    while k < primes.len()
        invariant
            k <= primes@.len(),
            c@.len() == primes@.len(),
            sub@.len() + count_true(c@, k as int) == count_true(c@, 0),
            idxs.len() == sub@.len(),
            forall|j: int|
                0 <= j < sub@.len() ==> 0 <= #[trigger] idxs[j] < primes@.len() && c@[idxs[j]]
                    && same_content(sub@[j], primes@[idxs[j]]),
            forall|k2: int|
                0 <= k2 < k && c@[k2] ==> exists|j: int|
                    0 <= j < sub@.len() && same_content(#[trigger] sub@[j], primes@[k2]),
        decreases primes@.len() - k,
    {
        let ghost sub_before = sub@;
        if c[k] {
            sub.push(primes[k].duplicate());
            proof {
                idxs = idxs.push(k as int);
            }
        }
        proof {
            assert forall|k2: int| 0 <= k2 < k + 1 && c@[k2] implies exists|j: int|
                0 <= j < sub@.len() && same_content(#[trigger] sub@[j], primes@[k2]) by {
                if k2 < k {
                    let j = choose|j: int|
                        0 <= j < sub_before.len() && same_content(
                            #[trigger] sub_before[j],
                            primes@[k2],
                        );
                    assert(same_content(sub@[j], primes@[k2]));
                } else {
                    assert(same_content(sub@[sub@.len() - 1], primes@[k2]));
                }
            }
        }
        k = k + 1;
    }
    (sub, Ghost(idxs))
}

/// Whether the rows subsume every entry of `required`.
fn covers_required(rows: &Vec<MintermTableRow>, required: &Vec<u32>) -> (r: bool)
    ensures
        r <==> forall|q: int| 0 <= q < required@.len() ==> prime_has(rows@, #[trigger] required@[q]),
{
    let mut q: usize = 0;
    while q < required.len()
        invariant
            q <= required@.len(),
            forall|q2: int| 0 <= q2 < q ==> prime_has(rows@, #[trigger] required@[q2]),
        decreases required@.len() - q,
    {
        if !rows_contain(rows, required[q]) {
            return false;
        }
        q = q + 1;
    }
    true
}

/// The total number of entries over the rows' minterm lists from
/// position `j` on.
pub open spec fn spec_total_minterms(rows: Seq<MintermTableRow>, j: int) -> int
    decreases rows.len() - j,
{
    if j < 0 || j >= rows.len() {
        0
    } else {
        rows[j].minterms@.len() + spec_total_minterms(rows, j + 1)
    }
}

/// Total number of entries over all the rows' minterm lists; the
/// tie-break weight between covers of equal cardinality.
fn total_minterms(rows: &Vec<MintermTableRow>) -> (r: u128)
    ensures
        r == spec_total_minterms(rows@, 0),
{
    let mut r: u128 = 0;
    let mut j: usize = 0;
    while j < rows.len()
        invariant
            j <= rows@.len(),
            r <= j * 0x1_0000_0000_0000_0000u128,
            r + spec_total_minterms(rows@, j as int) == spec_total_minterms(rows@, 0),
        decreases rows@.len() - j,
    {
        let len = rows[j].minterms.len();
        proof {
            assert((len as u128) < 0x1_0000_0000_0000_0000u128);
            assert((j + 1) * 0x1_0000_0000_0000_0000u128 == j * 0x1_0000_0000_0000_0000u128
                + 0x1_0000_0000_0000_0000u128) by (nonlinear_arith);
            assert(j * 0x1_0000_0000_0000_0000u128 <= 0xffff_ffff_ffff_ffffu128
                * 0x1_0000_0000_0000_0000u128) by (nonlinear_arith)
                requires
                    j <= 0xffff_ffff_ffff_ffffu128,
            ;
        }
        r = r + (len as u128);
        j = j + 1;
    }
    r
}


/// Some prime selected by the set bits of `c` subsumes `m`.
pub open spec fn bit_covers(primes: Seq<MintermTableRow>, c: Seq<bool>, m: u32) -> bool {
    exists|kk: int| 0 <= kk < c.len() && c[kk] && (#[trigger] primes[kk]).minterms@.contains(m)
}

/// The primes selected by the set bits of `c` subsume every entry of
/// `req`.
pub open spec fn covering(primes: Seq<MintermTableRow>, req: Seq<u32>, c: Seq<bool>) -> bool {
    forall|q: int| 0 <= q < req.len() ==> bit_covers(primes, c, #[trigger] req[q])
}

/// An exact minimum cover: enumerates every subset of `primes` in binary
/// counter order and keeps the covering subset with the fewest rows,
/// breaking ties toward the larger total minterm count and then toward
/// the later subset in enumeration order. Besides the rows, the selected
/// bit set comes back as a ghost witness: the result has exactly one row
/// per set bit, and no covering bit set selects fewer rows.
#[verifier::loop_isolation(false)]
#[verifier::rlimit(100)]
pub fn min_cover(primes: &Vec<MintermTableRow>, required: &Vec<u32>) -> (r: (
    Vec<MintermTableRow>,
    Ghost<Seq<bool>>,
))
    requires
        primes@.len() >= 1,
        forall|q: int| 0 <= q < required@.len() ==> prime_has(primes@, #[trigger] required@[q]),
    ensures
        rows_from(r.0@, primes@),
        r.0@.len() <= primes@.len(),
        forall|q: int| 0 <= q < required@.len() ==> prime_has(r.0@, #[trigger] required@[q]),
        r.1@.len() == primes@.len(),
        r.0@.len() == count_true(r.1@, 0),
        covering(primes@, required@, r.1@),
        forall|c: Seq<bool>|
            c.len() == primes@.len() && #[trigger] covering(primes@, required@, c) ==> r.0@.len()
                <= count_true(c, 0),
{
    let k = primes.len();
    let mut counter: Vec<bool> = vec![false; k];
    let mut best: Option<Vec<MintermTableRow>> = None;
    let ghost mut best_cb: Seq<bool> = Seq::empty();
    let mut best_count: u128 = 0;
    let mut finished = false;
    let ghost mut processed: int = 0;
    proof {
        lemma_ctr_prefix_zero(counter@, 0, k as int);
    }
    while !finished
        invariant
            counter@.len() == k,
            !finished ==> processed == ctr_val(counter@, 0),
            finished ==> processed == pow2(k as nat),
            best is Some ==> rows_from(best->0@, primes@) && best->0@.len() <= primes@.len()
                && (forall|q: int|
                0 <= q < required@.len() ==> prime_has(best->0@, #[trigger] required@[q]))
                && best_cb.len() == k && best->0@.len() == count_true(best_cb, 0) && covering(
                primes@,
                required@,
                best_cb,
            ),
            forall|c: Seq<bool>|
                c.len() == k && 0 <= ctr_val(c, 0) < processed && #[trigger] covering(
                    primes@,
                    required@,
                    c,
                ) ==> best is Some && best->0@.len() <= count_true(c, 0),
            finished ==> best is Some,
        decreases (if finished {
            0int
        } else {
            pow2(k as nat) - processed + 1
        }),
    {
        let (sub, sub_idxs) = subset_of(primes, &counter);
        let ghost subv = sub@;
        proof {
            lemma_rows_from_idxs(subv, primes@, sub_idxs@);
            lemma_count_nonneg(counter@, 0);
            assert(subv.len() <= primes@.len()) by {
                lemma_count_le(counter@, 0);
            }
        }
        let full_cover = covers_required(&sub, required);
        let cnt = total_minterms(&sub);
        proof {
            if full_cover {
                assert forall|q: int| 0 <= q < required@.len() implies bit_covers(
                    primes@,
                    counter@,
                    #[trigger] required@[q],
                ) by {
                    let m = required@[q];
                    let j = choose|j: int|
                        0 <= j < subv.len() && (#[trigger] subv[j]).minterms@.contains(m);
                    assert(counter@[sub_idxs@[j]] && primes@[sub_idxs@[j]].minterms@.contains(m));
                }
                assert(covering(primes@, required@, counter@));
            } else {
                if covering(primes@, required@, counter@) {
                    assert forall|q: int| 0 <= q < required@.len() implies prime_has(
                        subv,
                        #[trigger] required@[q],
                    ) by {
                        let m = required@[q];
                        assert(bit_covers(primes@, counter@, m));
                        let kk = choose|kk: int|
                            0 <= kk < counter@.len() && counter@[kk] && (
                            #[trigger] primes@[kk]).minterms@.contains(m);
                        let j = choose|j: int|
                            0 <= j < subv.len() && same_content(#[trigger] subv[j], primes@[kk]);
                        assert(subv[j].minterms@.contains(m));
                    }
                    assert(false);
                }
            }
        }
        let ghost best_was = best;
        if full_cover {
            let take = match &best {
                Option::None => true,
                Option::Some(b) => sub.len() < b.len() || (sub.len() == b.len() && cnt
                    >= best_count),
            };
            if take {
                best = Some(sub);
                best_count = cnt;
                proof {
                    best_cb = counter@;
                }
            }
        }
        proof {
            lemma_ctr_bound(counter@, 0);
            assert forall|c: Seq<bool>|
                c.len() == k && 0 <= ctr_val(c, 0) < processed + 1 && #[trigger] covering(
                    primes@,
                    required@,
                    c,
                ) implies best is Some && best->0@.len() <= count_true(c, 0) by {
                if ctr_val(c, 0) < processed {
                    assert(best_was is Some && best_was->0@.len() <= count_true(c, 0));
                    if best != best_was {
                        assert(best->0@.len() <= best_was->0@.len());
                    }
                } else {
                    lemma_ctr_injective(c, counter@, 0);
                    assert(c =~= counter@);
                    assert(full_cover);
                    assert(best->0@.len() <= subv.len());
                    lemma_count_congruent(c, counter@, 0);
                }
            }
            processed = processed + 1;
        }
        let ghost pre = counter@;
        let wrapped = incr_counter(&mut counter);
        proof {
            lemma_ctr_bound(counter@, 0);
        }
        if wrapped {
            proof {
                lemma_ctr_all_true(pre, 0);
                assert(processed == pow2(k as nat));
                assert(covering(primes@, required@, pre)) by {
                    assert forall|q: int| 0 <= q < required@.len() implies bit_covers(
                        primes@,
                        pre,
                        #[trigger] required@[q],
                    ) by {
                        let m = required@[q];
                        let w = choose|w: int|
                            0 <= w < primes@.len() && (#[trigger] primes@[w]).minterms@.contains(
                                m,
                            );
                        assert(pre[w]);
                    }
                }
                assert(ctr_val(pre, 0) < processed);
                assert(best is Some);
            }
            finished = true;
        } else {
            proof {
                assert(processed == ctr_val(counter@, 0));
            }
        }
    }
    proof {
        assert forall|c: Seq<bool>|
            c.len() == primes@.len() && #[trigger] covering(primes@, required@, c) implies best
            ->0@.len() <= count_true(c, 0) by {
            lemma_ctr_bound(c, 0);
        }
    }
    let ghost cb = best_cb;
    (best.unwrap(), Ghost(cb))
}

/// Some essential prime subsumes `m`.
pub open spec fn essentials_cover(primes: Seq<MintermTableRow>, dcs: Seq<u32>, m: u32) -> bool {
    exists|k: int|
        0 <= k < primes.len() && #[trigger] is_essential(primes, dcs, k)
            && primes[k].minterms@.contains(m)
}

/// The primes selected by the set bits of `c` subsume every required
/// minterm that the essential primes leave uncovered.
pub open spec fn covers_leftover(
    primes: Seq<MintermTableRow>,
    mts: Seq<u32>,
    dcs: Seq<u32>,
    c: Seq<bool>,
) -> bool {
    forall|m: u32|
        #[trigger] mts.contains(m) && !essentials_cover(primes, dcs, m) ==> bit_covers(
            primes,
            c,
            m,
        )
}

/// The selection `sel` is built as the coverage step directs: first the
/// essential primes, one per essential index in increasing order, then
/// one prime per set bit of `cb`, where `cb` subsumes every minterm the
/// essentials leave uncovered and no bit set that does so has fewer set
/// bits.
pub open spec fn selection_ok(
    sel: Seq<MintermTableRow>,
    primes: Seq<MintermTableRow>,
    mts: Seq<u32>,
    dcs: Seq<u32>,
    ne: int,
    eidx: Seq<int>,
    cb: Seq<bool>,
) -> bool {
    &&& 0 <= ne <= sel.len()
    &&& eidx.len() == ne
    &&& forall|p: int, q: int| 0 <= p < q < ne ==> eidx[p] < eidx[q]
    &&& forall|p: int|
        0 <= p < ne ==> 0 <= #[trigger] eidx[p] < primes.len() && is_essential(primes, dcs, eidx[p])
            && same_content(sel[p], primes[eidx[p]])
    &&& forall|k: int|
        0 <= k < primes.len() && #[trigger] is_essential(primes, dcs, k) ==> eidx.contains(k)
    &&& cb.len() == primes.len()
    &&& sel.len() - ne == count_true(cb, 0)
    &&& forall|j: int| ne <= j < sel.len() ==> row_in(#[trigger] sel[j], primes)
    &&& covers_leftover(primes, mts, dcs, cb)
    &&& forall|c: Seq<bool>|
        c.len() == primes.len() && #[trigger] covers_leftover(primes, mts, dcs, c) ==> count_true(
            cb,
            0,
        ) <= count_true(c, 0)
    &&& forall|m: u32|
        #[trigger] mts.contains(m) && !essentials_cover(primes, dcs, m) ==> exists|j: int|
            ne <= j < sel.len() && (#[trigger] sel[j]).minterms@.contains(m)
}

/// A row with the fields of a well-formed prime stays well formed.
proof fn lemma_same_content_prime(
    a: MintermTableRow,
    b: MintermTableRow,
    mts: Seq<u32>,
    dcs: Seq<u32>,
)
    requires
        prime_row(b, mts, dcs),
        same_content(a, b),
    ensures
        prime_row(a, mts, dcs),
{
    assert(a.minterms@ == b.minterms@ && a.bits == b.bits);
}

/// Selects the final implicants: the essential primes, plus an exact
/// minimum cover of whatever required minterms they leave uncovered.
/// Every required minterm ends up covered by some selected row, and the
/// selection never holds more rows than there are prime implicants.
#[verifier::loop_isolation(false)]
#[verifier::rlimit(100)]
pub fn select_cover(
    primes: &Vec<MintermTableRow>,
    minterms: &Vec<u32>,
    dont_cares: &Vec<u32>,
) -> (sel: Vec<MintermTableRow>)
    requires
        minterms@.len() > 0,
        forall|j: int|
            0 <= j < primes@.len() ==> prime_row(#[trigger] primes@[j], minterms@, dont_cares@),
        forall|x: u32| is_input(minterms@, dont_cares@, x) ==> prime_has(primes@, x),
    ensures
        1 <= sel@.len() <= primes@.len(),
        forall|j: int|
            0 <= j < sel@.len() ==> prime_row(#[trigger] sel@[j], minterms@, dont_cares@),
        forall|m: u32|
            minterms@.contains(m) ==> exists|j: int|
                0 <= j < sel@.len() && covers((#[trigger] sel@[j]).bits, m),
        exists|ne: int, eidx: Seq<int>, cb: Seq<bool>|
            #![trigger selection_ok(sel@, primes@, minterms@, dont_cares@, ne, eidx, cb)]
            selection_ok(sel@, primes@, minterms@, dont_cares@, ne, eidx, cb),
{
    let ghost mts = minterms@;
    let ghost dcs = dont_cares@;
    let (mut selected, ess_idxs) = essential_primes(primes, dont_cares);
    let ghost ess_view = selected@;
    proof {
        assert forall|j: int| 0 <= j < ess_view.len() implies prime_row(
            #[trigger] ess_view[j],
            mts,
            dcs,
        ) by {
            lemma_same_content_prime(ess_view[j], primes@[ess_idxs@[j]], mts, dcs);
        }
    }
    let uncovered = uncovered_minterms(minterms, &selected);
    let ghost mut chosen_view: Seq<MintermTableRow> = Seq::empty();
    let ghost mut cb: Seq<bool> = Seq::new(primes@.len(), |t: int| false);
    if uncovered.len() > 0 {
        proof {
            assert forall|q: int| 0 <= q < uncovered@.len() implies prime_has(
                primes@,
                #[trigger] uncovered@[q],
            ) by {
                assert(mts.contains(uncovered@[q]));
                assert(is_input(mts, dcs, uncovered@[q]));
            }
            assert(prime_has(primes@, mts[0])) by {
                assert(mts.contains(mts[0]));
                assert(is_input(mts, dcs, mts[0]));
            }
        }
        let (mut chosen, chosen_cb) = min_cover(primes, &uncovered);
        proof {
            chosen_view = chosen@;
            cb = chosen_cb@;
            assert forall|j: int| 0 <= j < chosen_view.len() implies prime_row(
                #[trigger] chosen_view[j],
                mts,
                dcs,
            ) by {
                assert(row_in(chosen_view[j], primes@));
                let k = choose|k: int|
                    0 <= k < primes@.len() && same_content(chosen_view[j], #[trigger] primes@[k]);
                lemma_same_content_prime(chosen_view[j], primes@[k], mts, dcs);
            }
        }
        selected.append(&mut chosen);
    } else {
        proof {
            lemma_count_zero(cb, 0);
        }
    }
    proof {
        assert(selected@ == ess_view + chosen_view) by {
            if uncovered@.len() == 0 {
                assert(selected@ =~= ess_view + chosen_view);
            }
        }
        assert(cb.len() == primes@.len() && chosen_view.len() == count_true(cb, 0));
        assert forall|j: int| 0 <= j < selected@.len() implies prime_row(
            #[trigger] selected@[j],
            mts,
            dcs,
        ) by {
            if j < ess_view.len() {
                assert(selected@[j] == ess_view[j]);
            } else {
                assert(selected@[j] == chosen_view[j - ess_view.len()]);
            }
        }
        // No essential index is selected by the cover's bit set: clearing
        // it would leave a smaller covering bit set, contradicting the
        // cover's minimality.
        assert forall|p: int| 0 <= p < ess_idxs@.len() implies !cb[#[trigger] ess_idxs@[p]] by {
            let t = ess_idxs@[p];
            if cb[t] {
                let c2 = cb.update(t, false);
                assert forall|q: int| 0 <= q < uncovered@.len() implies bit_covers(
                    primes@,
                    c2,
                    #[trigger] uncovered@[q],
                ) by {
                    let m = uncovered@[q];
                    assert(bit_covers(primes@, cb, m));
                    let kk = choose|kk: int|
                        0 <= kk < cb.len() && cb[kk] && (#[trigger] primes@[kk]).minterms@.contains(
                            m,
                        );
                    if kk == t {
                        assert(ess_view[p].minterms@ == primes@[t].minterms@);
                        assert(prime_has(ess_view, m)) by {
                            assert(ess_view[p].minterms@.contains(m));
                        }
                        assert(uncovered@.contains(m)) by {
                            assert(uncovered@[q] == m);
                        }
                        assert(false);
                    } else {
                        assert(c2[kk] && primes@[kk].minterms@.contains(m));
                    }
                }
                assert(covering(primes@, uncovered@, c2));
                assert(chosen_view.len() <= count_true(c2, 0));
                lemma_count_clear(cb, t, 0);
                assert(false);
            }
        }
        // Distinct essential indices land in the clear bits of the
        // cover's bit set, so the two parts together stay within the
        // number of primes.
        let eset = ess_idxs@.to_set();
        ess_idxs@.unique_seq_to_set();
        let fset = Set::new(|t: int| 0 <= t < cb.len() && !cb[t]);
        lemma_false_set_card(cb, 0);
        assert(eset.subset_of(fset)) by {
            assert forall|x: int| eset.contains(x) implies fset.contains(x) by {
                assert(ess_idxs@.contains(x));
                let p = choose|p: int| 0 <= p < ess_idxs@.len() && ess_idxs@[p] == x;
                assert(!cb[x]);
            }
        }
        vstd::set_lib::lemma_len_subset(eset, fset);
        assert(ess_view.len() + chosen_view.len() <= primes@.len());
        assert forall|m: u32| mts.contains(m) implies exists|j: int|
            0 <= j < selected@.len() && covers((#[trigger] selected@[j]).bits, m) by {
            if prime_has(ess_view, m) {
                let j = choose|j: int|
                    0 <= j < ess_view.len() && (#[trigger] ess_view[j]).minterms@.contains(m);
                assert(selected@[j] == ess_view[j]);
                let q = choose|q: int|
                    0 <= q < selected@[j].minterms@.len() && selected@[j].minterms@[q] == m;
                assert(covers(selected@[j].bits, selected@[j].minterms@[q]));
            } else {
                let i = choose|i: int| 0 <= i < mts.len() && mts[i] == m;
                assert(uncovered@.contains(mts[i]));
                let q0 = choose|q0: int| 0 <= q0 < uncovered@.len() && uncovered@[q0] == m;
                assert(prime_has(chosen_view, uncovered@[q0]));
                let j0 = choose|j0: int|
                    0 <= j0 < chosen_view.len() && (#[trigger] chosen_view[j0]).minterms@.contains(
                        m,
                    );
                let j = ess_view.len() + j0;
                assert(selected@[j] == chosen_view[j0]);
                let q = choose|q: int|
                    0 <= q < selected@[j].minterms@.len() && selected@[j].minterms@[q] == m;
                assert(covers(selected@[j].bits, selected@[j].minterms@[q]));
            }
        }
        assert(selected@.len() >= 1) by {
            assert(mts.contains(mts[0]));
            let j = choose|j: int|
                0 <= j < selected@.len() && covers((#[trigger] selected@[j]).bits, mts[0]);
        }
        // The selection is as the coverage step directs: essential primes
        // first, then a minimum-cardinality cover of the leftover.
        let ne = ess_view.len() as int;
        assert forall|m: u32| essentials_cover(primes@, dcs, m) implies prime_has(
            ess_view,
            m,
        ) by {
            let k = choose|k: int|
                0 <= k < primes@.len() && #[trigger] is_essential(primes@, dcs, k)
                    && primes@[k].minterms@.contains(m);
            assert(ess_idxs@.contains(k));
            let p = choose|p: int| 0 <= p < ess_idxs@.len() && ess_idxs@[p] == k;
            assert(prime_has(ess_view, m)) by {
                assert(ess_view[p].minterms@.contains(m));
            }
        }
        assert forall|m: u32| prime_has(ess_view, m) implies essentials_cover(
            primes@,
            dcs,
            m,
        ) by {
            let p = choose|p: int|
                0 <= p < ess_view.len() && (#[trigger] ess_view[p]).minterms@.contains(m);
            let k = ess_idxs@[p];
            assert(essentials_cover(primes@, dcs, m)) by {
                assert(is_essential(primes@, dcs, k) && primes@[k].minterms@.contains(m));
            }
        }
        if uncovered@.len() > 0 {
            assert(covers_leftover(primes@, mts, dcs, cb)) by {
                assert forall|m: u32|
                    #[trigger] mts.contains(m) && !essentials_cover(primes@, dcs, m) implies
                    bit_covers(primes@, cb, m) by {
                    let i = choose|i: int| 0 <= i < mts.len() && mts[i] == m;
                    assert(uncovered@.contains(mts[i]));
                    let q = choose|q: int| 0 <= q < uncovered@.len() && uncovered@[q] == m;
                    assert(bit_covers(primes@, cb, uncovered@[q]));
                }
            }
            assert forall|c: Seq<bool>|
                c.len() == primes@.len() && #[trigger] covers_leftover(primes@, mts, dcs, c)
                implies count_true(cb, 0) <= count_true(c, 0) by {
                assert(covering(primes@, uncovered@, c)) by {
                    assert forall|q: int| 0 <= q < uncovered@.len() implies bit_covers(
                        primes@,
                        c,
                        #[trigger] uncovered@[q],
                    ) by {
                        let m = uncovered@[q];
                        assert(uncovered@.contains(m)) by {
                            assert(uncovered@[q] == m);
                        }
                        assert(mts.contains(m));
                        assert(!prime_has(ess_view, m));
                        assert(!essentials_cover(primes@, dcs, m));
                    }
                }
            }
        } else {
            assert forall|m: u32|
                #[trigger] mts.contains(m) && !essentials_cover(primes@, dcs, m) implies false by {
                let i = choose|i: int| 0 <= i < mts.len() && mts[i] == m;
                assert(!prime_has(ess_view, m));
                assert(uncovered@.contains(mts[i]));
            }
            assert(covers_leftover(primes@, mts, dcs, cb));
            assert forall|c: Seq<bool>|
                c.len() == primes@.len() && #[trigger] covers_leftover(primes@, mts, dcs, c)
                implies count_true(cb, 0) <= count_true(c, 0) by {
                lemma_count_nonneg(c, 0);
            }
        }
        assert forall|j: int| ne <= j < selected@.len() implies row_in(
            #[trigger] selected@[j],
            primes@,
        ) by {
            assert(selected@[j] == chosen_view[j - ne]);
            assert(row_in(chosen_view[j - ne], primes@));
        }
        assert forall|m: u32|
            #[trigger] mts.contains(m) && !essentials_cover(primes@, dcs, m) implies exists|j: int|
            ne <= j < selected@.len() && (#[trigger] selected@[j]).minterms@.contains(m) by {
            let i = choose|i: int| 0 <= i < mts.len() && mts[i] == m;
            assert(!prime_has(ess_view, m));
            assert(uncovered@.contains(mts[i]));
            let q0 = choose|q0: int| 0 <= q0 < uncovered@.len() && uncovered@[q0] == m;
            assert(prime_has(chosen_view, uncovered@[q0]));
            let j0 = choose|j0: int|
                0 <= j0 < chosen_view.len() && (#[trigger] chosen_view[j0]).minterms@.contains(m);
            assert(selected@[ne + j0].minterms@.contains(m));
        }
        assert(selection_ok(selected@, primes@, mts, dcs, ne, ess_idxs@, cb));
    }
    selected
}

} // verus!
