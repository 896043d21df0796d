//! Quine–McCluskey boolean function minimization.
//!
//! Given a set of minterms (input combinations on which a boolean function
//! must be true) and a set of don't-cares (combinations on which it may be
//! either), over a list of named input variables, the library computes a
//! minimal sum-of-products expression covering the minterms and renders it
//! as a string using the connectives `∧`, `∨` and `¬`.

pub mod bitmath;
pub mod combine;
pub mod cover;
pub mod render;
pub mod row;

use vstd::prelude::*;
use vstd::arithmetic::power2::{pow2, lemma2_to64, lemma_pow2_strictly_increases};
use crate::bitmath::{covers, fits};
use crate::row::{MintermTableRow, is_input};
use crate::combine::prime_implicants;
use crate::cover::select_cover;
use crate::render::{spec_expression, names_view, to_expression_string};

verus! {

/// `res` renders a set of implicant rows that covers every required
/// minterm and covers nothing outside the minterms and don't-cares: the
/// expression is true on every minterm and false on every input
/// combination that is neither a minterm nor a don't-care.
pub open spec fn valid_expression(
    res: Seq<char>,
    names: Seq<String>,
    mts: Seq<u32>,
    dcs: Seq<u32>,
) -> bool {
    exists|rows: Seq<MintermTableRow>|
        #![trigger spec_expression(rows, names_view(names))]
        {
            &&& res == spec_expression(rows, names_view(names))
            &&& rows.len() >= 1
            &&& forall|m: u32|
                mts.contains(m) ==> exists|j: int|
                    0 <= j < rows.len() && covers((#[trigger] rows[j]).bits, m)
            &&& forall|x: u32|
                !mts.contains(x) && !dcs.contains(x) ==> forall|j: int|
                    0 <= j < rows.len() ==> !covers((#[trigger] rows[j]).bits, x)
        }
}

/// Minimizes the boolean function that is true on `minterms`, false
/// outside `minterms` and `dont_cares`, and unconstrained on
/// `dont_cares`, over the input variables named by `input_names` (first
/// name = most significant bit). Returns `"0"` when no minterm is
/// required, `"1"` when every input combination is a minterm or a
/// don't-care, and otherwise a disjunctive normal form whose implicants
/// cover exactly the required minterms plus (possibly) don't-cares.
pub fn compute_mcclusky(input_names: Vec<String>, minterms: Vec<u32>, dont_cares: Vec<u32>) -> (res:
    String)
    requires
        1 <= input_names@.len() <= 32,
        minterms@.no_duplicates(),
        dont_cares@.no_duplicates(),
        forall|i: int|
            0 <= i < minterms@.len() ==> fits(#[trigger] minterms@[i], input_names@.len() as nat),
        forall|i: int|
            0 <= i < dont_cares@.len() ==> fits(
                #[trigger] dont_cares@[i],
                input_names@.len() as nat,
            ),
        forall|x: u32| !(minterms@.contains(x) && dont_cares@.contains(x)),
    ensures
        minterms@.len() == 0 ==> res@ == "0"@,
        minterms@.len() != 0 && minterms@.len() + dont_cares@.len() == pow2(
            input_names@.len() as nat,
        ) ==> res@ == "1"@,
        minterms@.len() != 0 && minterms@.len() + dont_cares@.len() != pow2(
            input_names@.len() as nat,
        ) ==> valid_expression(res@, input_names@, minterms@, dont_cares@),
{
    let ghost mts = minterms@;
    let ghost dcs = dont_cares@;
    let num = input_names.len();
    if minterms.is_empty() {
        return "0".to_owned();
    }
    proof {
        lemma2_to64();
        if num < 32 {
            lemma_pow2_strictly_increases(num as nat, 32);
        }
        vstd::bits::lemma_u64_shl_is_mul(1u64, num as u64);
    }
    if (minterms.len() as u128) + (dont_cares.len() as u128) == ((1u64 << (num as u64)) as u128) {
        return "1".to_owned();
    }
    let primes = prime_implicants(&minterms, &dont_cares, num);
    let selected = select_cover(&primes, &minterms, &dont_cares);
    proof {
        assert forall|x: u32| !mts.contains(x) && !dcs.contains(x) implies forall|j: int|
            0 <= j < selected@.len() ==> !covers((#[trigger] selected@[j]).bits, x) by {
            assert forall|j: int| 0 <= j < selected@.len() implies !covers(
                (#[trigger] selected@[j]).bits,
                x,
            ) by {
                if covers(selected@[j].bits, x) {
                    assert(is_input(mts, dcs, x));
                }
            }
        }
    }
    let res = to_expression_string(&selected, &input_names);
    proof {
        assert(res@ == spec_expression(selected@, names_view(input_names@)));
    }
    res
}

} // verus!
