//! The expression renderer: turns the selected implicant rows into a
//! disjunctive-normal-form string over the named input variables, with
//! `∧`, `∨` and `¬` as connectives.

use vstd::prelude::*;
use vstd::string::StringExecFns;
use crate::row::MintermTableRow;

verus! {

/// The views of the variable names.
pub open spec fn names_view(names: Seq<String>) -> Seq<Seq<char>> {
    names.map_values(|s: String| s@)
}

/// The conjunction rendered for one row from name position `idx` on.
/// Name position `idx` speaks for bit `names.len() - 1 - idx`: the first
/// name is the most significant bit. Masked bits are omitted; a clear
/// care-bit negates its variable. `first` records whether a literal has
/// been emitted yet, so connectives separate neighbouring literals.
pub open spec fn spec_conj(bits: (u32, u32), names: Seq<Seq<char>>, idx: int, first: bool) -> Seq<
    char,
>
    decreases names.len() - idx,
{
    if idx < 0 || idx >= names.len() {
        Seq::empty()
    } else {
        let bit = (names.len() - 1 - idx) as u32;
        if bits.1 & (1u32 << bit) != 0 {
            spec_conj(bits, names, idx + 1, first)
        } else {
            let lit = if bits.0 & (1u32 << bit) != 0 {
                names[idx]
            } else {
                seq!['¬'] + names[idx]
            };
            (if first {
                lit
            } else {
                seq![' ', '∧', ' '] + lit
            }) + spec_conj(bits, names, idx + 1, false)
        }
    }
}

/// One row's parenthesized conjunction.
pub open spec fn spec_row_str(bits: (u32, u32), names: Seq<Seq<char>>) -> Seq<char> {
    seq!['('] + spec_conj(bits, names, 0, true) + seq![')']
}

/// The rendering of the rows from position `j` on, each preceded by the
/// disjunction connective except the first.
pub open spec fn spec_render_from(
    rows: Seq<MintermTableRow>,
    names: Seq<Seq<char>>,
    j: int,
) -> Seq<char>
    decreases rows.len() - j,
{
    if j < 0 || j >= rows.len() {
        Seq::empty()
    } else {
        (if j == 0 {
            Seq::<char>::empty()
        } else {
            seq![' ', '∨', ' ']
        }) + spec_row_str(rows[j].bits, names) + spec_render_from(rows, names, j + 1)
    }
}

/// The full rendered expression.
pub open spec fn spec_expression(rows: Seq<MintermTableRow>, names: Seq<Seq<char>>) -> Seq<char> {
    spec_render_from(rows, names, 0)
}

/// Renders the selected rows as a disjunction of parenthesized
/// conjunctions of (possibly negated) variable names.
#[verifier::loop_isolation(false)]
pub fn to_expression_string(rows: &Vec<MintermTableRow>, input_names: &Vec<String>) -> (r: String)
    requires
        1 <= input_names@.len() <= 32,
    ensures
        r@ == spec_expression(rows@, names_view(input_names@)),
{
    let ghost namesv = names_view(input_names@);
    proof {
        reveal_strlit("(");
        reveal_strlit(")");
        reveal_strlit("¬");
        reveal_strlit(" ∧ ");
        reveal_strlit(" ∨ ");
    }
    let nv = input_names.len();
    let mut out = String::new();
    let mut j: usize = 0;
    while j < rows.len()
        invariant
            j <= rows@.len(),
            spec_expression(rows@, namesv) == out@ + spec_render_from(rows@, namesv, j as int),
        decreases rows@.len() - j,
    {
        let ghost out_at_row = out@;
        if j > 0 {
            out.append(" ∨ ");
            proof {
                assert(out@ =~= out_at_row + seq![' ', '∨', ' ']);
            }
        }
        out.append("(");
        let ghost base = out@;
        proof {
            if j > 0 {
                assert(base =~= out_at_row + seq![' ', '∨', ' '] + seq!['(']);
            } else {
                assert(base =~= out_at_row + seq!['(']);
            }
        }
        let bits = rows[j].bits;
        let mut first = true;
        let mut idx: usize = 0;
        while idx < nv
            invariant
                idx <= nv,
                base + spec_conj(bits, namesv, 0, true) == out@ + spec_conj(
                    bits,
                    namesv,
                    idx as int,
                    first,
                ),
            decreases nv - idx,
        {
            let ghost out_before = out@;
            let ghost first_pre = first;
            let bit = (nv - 1 - idx) as u32;
            if bits.1 & (1u32 << bit) != 0 {
                proof {
                    assert(spec_conj(bits, namesv, idx as int, first) == spec_conj(
                        bits,
                        namesv,
                        idx + 1,
                        first,
                    ));
                }
            } else {
                if !first {
                    out.append(" ∧ ");
                }
                if bits.0 & (1u32 << bit) != 0 {
                } else {
                    out.append("¬");
                }
                out.append(input_names[idx].as_str());
                proof {
                    assert(namesv[idx as int] == input_names@[idx as int]@);
                    let lit = if bits.0 & (1u32 << bit) != 0 {
                        namesv[idx as int]
                    } else {
                        seq!['¬'] + namesv[idx as int]
                    };
                    let emit = if first_pre {
                        lit
                    } else {
                        seq![' ', '∧', ' '] + lit
                    };
                    assert(out@ =~= out_before + emit);
                    assert(spec_conj(bits, namesv, idx as int, first_pre) == emit + spec_conj(
                        bits,
                        namesv,
                        idx + 1,
                        false,
                    ));
                    assert(out_before + (emit + spec_conj(bits, namesv, idx + 1, false)) =~= out@
                        + spec_conj(bits, namesv, idx + 1, false));
                }
                first = false;
            }
            idx = idx + 1;
        }
        out.append(")");
        proof {
            assert(spec_conj(bits, namesv, nv as int, first) =~= Seq::<char>::empty());
            assert(out@ =~= base + spec_conj(bits, namesv, 0, true) + seq![')']);
            assert(spec_row_str(bits, namesv) =~= seq!['('] + spec_conj(bits, namesv, 0, true)
                + seq![')']);
            if j > 0 {
                assert(out@ =~= out_at_row + (seq![' ', '∨', ' '] + spec_row_str(bits, namesv)));
                assert(spec_render_from(rows@, namesv, j as int) == (seq![' ', '∨', ' ']
                    + spec_row_str(bits, namesv)) + spec_render_from(rows@, namesv, j + 1));
                assert(out_at_row + ((seq![' ', '∨', ' '] + spec_row_str(bits, namesv))
                    + spec_render_from(rows@, namesv, j + 1)) =~= out@ + spec_render_from(
                    rows@,
                    namesv,
                    j + 1,
                ));
            } else {
                assert(out@ =~= out_at_row + (Seq::<char>::empty() + spec_row_str(bits, namesv)));
                assert(spec_render_from(rows@, namesv, 0) == (Seq::<char>::empty()
                    + spec_row_str(bits, namesv)) + spec_render_from(rows@, namesv, 1));
                assert(out_at_row + ((Seq::<char>::empty() + spec_row_str(bits, namesv))
                    + spec_render_from(rows@, namesv, 1)) =~= out@ + spec_render_from(
                    rows@,
                    namesv,
                    j + 1,
                ));
            }
        }
        j = j + 1;
    }
    proof {
        assert(spec_render_from(rows@, namesv, rows@.len() as int) =~= Seq::<char>::empty());
        assert(out@ =~= out@ + Seq::<char>::empty());
    }
    out
}

} // verus!
