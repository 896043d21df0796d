use mcclusky::compute_mcclusky;
use mcclusky::combine::prime_implicants;

/// Evaluates a rendered sum-of-products expression at one input value.
/// `names[0]` speaks for the most significant bit.
fn eval(expr: &str, names: &[&str], value: u32) -> bool {
    if expr == "0" {
        return false;
    }
    if expr == "1" {
        return true;
    }
    let n = names.len() as u32;
    expr.split(" ∨ ").any(|term| {
        let t = term
            .strip_prefix('(')
            .expect("disjunct must be parenthesized")
            .strip_suffix(')')
            .expect("disjunct must be parenthesized");
        t.split(" ∧ ").all(|lit| {
            let (neg, name) = match lit.strip_prefix('¬') {
                Some(rest) => (true, rest),
                None => (false, lit),
            };
            let idx = names.iter().position(|&s| s == name).expect("unknown variable") as u32;
            let bit = n - 1 - idx;
            let v = (value >> bit) & 1 == 1;
            if neg {
                !v
            } else {
                v
            }
        })
    })
}

fn names(v: &[&str]) -> Vec<String> {
    v.iter().map(|s| s.to_string()).collect()
}

#[test]
fn trivial_zero() {
    assert_eq!(
        compute_mcclusky(vec!["S0".into(), "S1".into()], vec![], vec![0, 1]),
        "0"
    );
}

#[test]
fn trivial_one() {
    assert_eq!(
        compute_mcclusky(vec!["S0".into(), "S1".into()], vec![0, 1, 2], vec![3]),
        "1"
    );
}

#[test]
fn three_vars() {
    assert_eq!(
        compute_mcclusky(
            vec!["S0".into(), "S1".into(), "S2".into()],
            vec![0, 3, 4],
            vec![2, 7]
        ),
        "(¬S1 ∧ ¬S2) ∨ (S1 ∧ S2)"
    );
}

#[test]
fn four_vars() {
    assert_eq!(
        compute_mcclusky(
            vec!["S0".into(), "S1".into(), "S2".into(), "S3".into()],
            vec![0, 3, 4, 8, 9, 10, 12, 15],
            vec![2, 7, 11]
        ),
        "(¬S2 ∧ ¬S3) ∨ (S0 ∧ ¬S1) ∨ (S2 ∧ S3)"
    );
}

#[test]
fn zero_when_no_minterms_three_vars() {
    assert_eq!(
        compute_mcclusky(names(&["A", "B", "C"]), vec![], vec![1, 5]),
        "0"
    );
}

#[test]
fn one_when_everything_covered_three_vars() {
    assert_eq!(
        compute_mcclusky(names(&["A", "B", "C"]), vec![0, 2, 4, 6], vec![1, 3, 5, 7]),
        "1"
    );
}

#[test]
fn one_var_positive() {
    assert_eq!(compute_mcclusky(names(&["S0"]), vec![1], vec![]), "(S0)");
}

#[test]
fn one_var_negative() {
    assert_eq!(compute_mcclusky(names(&["S0"]), vec![0], vec![]), "(¬S0)");
}

#[test]
fn round_trip_three_vars() {
    let ns = ["S0", "S1", "S2"];
    let minterms = vec![0u32, 3, 4];
    let dont_cares = vec![2u32, 7];
    let out = compute_mcclusky(names(&ns), minterms.clone(), dont_cares.clone());
    for v in 0u32..8 {
        let val = eval(&out, &ns, v);
        if minterms.contains(&v) {
            assert!(val, "minterm {} must evaluate to true in {}", v, out);
        } else if !dont_cares.contains(&v) {
            assert!(!val, "value {} must evaluate to false in {}", v, out);
        }
    }
}

#[test]
fn round_trip_four_vars() {
    let ns = ["S0", "S1", "S2", "S3"];
    let minterms = vec![0u32, 3, 4, 8, 9, 10, 12, 15];
    let dont_cares = vec![2u32, 7, 11];
    let out = compute_mcclusky(names(&ns), minterms.clone(), dont_cares.clone());
    for v in 0u32..16 {
        let val = eval(&out, &ns, v);
        if minterms.contains(&v) {
            assert!(val, "minterm {} must evaluate to true in {}", v, out);
        } else if !dont_cares.contains(&v) {
            assert!(!val, "value {} must evaluate to false in {}", v, out);
        }
    }
}

#[test]
fn disjuncts_bounded_by_primes() {
    let minterms = vec![0u32, 3, 4];
    let dont_cares = vec![2u32, 7];
    let primes = prime_implicants(&minterms, &dont_cares, 3);
    let out = compute_mcclusky(names(&["S0", "S1", "S2"]), minterms, dont_cares);
    let disjuncts = out.split(" ∨ ").count();
    assert!(disjuncts <= primes.len());
}

#[test]
fn disjuncts_bounded_by_primes_four_vars() {
    let minterms = vec![0u32, 3, 4, 8, 9, 10, 12, 15];
    let dont_cares = vec![2u32, 7, 11];
    let primes = prime_implicants(&minterms, &dont_cares, 4);
    let out = compute_mcclusky(
        names(&["S0", "S1", "S2", "S3"]),
        minterms,
        dont_cares,
    );
    let disjuncts = out.split(" ∨ ").count();
    assert!(disjuncts <= primes.len());
}

#[test]
fn one_when_both_single_var_values_required() {
    assert_eq!(compute_mcclusky(names(&["S0"]), vec![0, 1], vec![]), "1");
}

#[test]
fn round_trip_cyclic_cover() {
    // No prime implicant is essential here, so the minimum cover must be
    // found by the exhaustive subset search.
    let ns = ["S0", "S1", "S2"];
    let minterms = vec![0u32, 1, 2, 5, 6, 7];
    let out = compute_mcclusky(names(&ns), minterms.clone(), vec![]);
    for v in 0u32..8 {
        let val = eval(&out, &ns, v);
        assert_eq!(
            val,
            minterms.contains(&v),
            "value {} mis-evaluated in {}",
            v,
            out
        );
    }
}

#[test]
fn repeat_runs_identical() {
    let run = || {
        compute_mcclusky(
            names(&["S0", "S1", "S2", "S3"]),
            vec![0, 3, 4, 8, 9, 10, 12, 15],
            vec![2, 7, 11],
        )
    };
    let first = run();
    for _ in 0..5 {
        assert_eq!(run(), first);
    }
}
