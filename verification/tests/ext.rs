//! The cocycle solver on small extensions whose solution spaces are known.

use parsimagma::ext::{cocycle_space, is_prime, law_residual, residual_is_flat, separates, Extension, Verdict};
use parsimagma::{parse_laws, Dag, Engine, FiniteMagma, Law};

fn law(text: &str) -> Law {
    parse_laws(text).expect("the law parses").remove(0)
}

fn holds(e: &Extension, l: &Law) -> bool {
    let one = vec![l.clone()];
    let eng = Engine::new(Dag::build(&one));
    eng.signature(&e.magma()).get(0)
}

/// `x ◇ y = x + y` on `Z/2`.
fn z2_sum() -> FiniteMagma {
    FiniteMagma::new(2, vec![0, 1, 1, 0]).unwrap()
}

#[test]
fn primality_is_decided_by_trial_division() {
    let primes: Vec<u32> = (0..40).filter(|&n| is_prime(n)).collect();
    assert_eq!(primes, vec![2, 3, 5, 7, 11, 13, 17, 19, 23, 29, 31, 37]);
    assert!(is_prime(65521));
    assert!(!is_prime(65535));
}

#[test]
fn commutativity_asks_for_a_symmetric_cocycle() {
    // With alpha = beta the fibre part is symmetric, so the extension is
    // commutative exactly when the cocycle is: a space of dimension 3 over
    // a base of two elements.
    let comm = law("x ◇ y = y ◇ x\n");
    let b = z2_sum();
    let sp = cocycle_space(&b, 3, 1, 1, &comm).expect("the system is solvable");
    assert_eq!(sp.dimension(), 3);
    assert_eq!(sp.particular, vec![0, 0, 0, 0]);
    for coeffs in [[1u32, 0, 0], [0, 1, 0], [0, 0, 1], [2, 1, 2], [1, 1, 1]] {
        let c = sp.member(&coeffs);
        assert_eq!(c[1], c[2], "member {coeffs:?} is symmetric");
        let e = Extension { base: b.clone(), m: 3, alpha: 1, beta: 1, cocycle: c };
        assert_eq!(e.carrier(), 6);
        assert!(holds(&e, &comm));
    }
    // An asymmetric cocycle breaks commutativity.
    let e = Extension { base: b, m: 3, alpha: 1, beta: 1, cocycle: vec![0, 1, 0, 0] };
    assert!(!holds(&e, &comm));
}

#[test]
fn a_law_the_base_fails_has_no_cocycle() {
    // x + y on Z/2 is not idempotent, so no extension of it is.
    let idem = law("x = x ◇ x\n");
    assert!(cocycle_space(&z2_sum(), 3, 1, 1, &idem).is_none());
}

#[test]
fn the_trivial_law_leaves_every_cocycle_free() {
    let triv = law("x = x\n");
    let sp = cocycle_space(&z2_sum(), 5, 2, 3, &triv).expect("every cocycle works");
    assert_eq!(sp.dimension(), 4);
    assert_eq!(sp.particular, vec![0, 0, 0, 0]);
}

/// The one-element magma.
fn trivial_base() -> FiniteMagma {
    FiniteMagma::new(1, vec![0]).unwrap()
}

#[test]
fn a_residual_that_depends_on_one_variable_is_not_flat() {
    // Over one base element, x ◇ y = (0, s) with alpha = 1, beta = 0:
    // commutativity compares s with t, which agree whenever every variable
    // has the same fibre coordinate but not in general.
    let comm = law("x ◇ y = y ◇ x\n");
    let e = Extension { base: trivial_base(), m: 5, alpha: 1, beta: 0, cocycle: vec![0] };
    // All at fibre zero the sides agree; with x at one they differ by -1.
    assert_eq!(law_residual(&e, &comm), Some(vec![4]));
    assert!(!residual_is_flat(&e, &comm));
    assert!(!holds(&e, &comm));
    assert!(cocycle_space(&trivial_base(), 5, 1, 0, &comm).is_none());
}

#[test]
fn a_symmetric_fibre_part_is_flat_and_separation_is_blocked_or_found() {
    let comm = law("x ◇ y = y ◇ x\n");
    let e = Extension { base: trivial_base(), m: 5, alpha: 2, beta: 2, cocycle: vec![3] };
    assert!(residual_is_flat(&e, &comm));
    assert_eq!(law_residual(&e, &comm), Some(vec![0]));
    assert!(holds(&e, &comm));
    // Every cocycle of the one-element base works for x = x; the target
    // x ◇ y = x fails in each of them, since beta is nonzero.
    let triv = law("x = x\n");
    let sp = cocycle_space(&trivial_base(), 5, 2, 2, &triv).expect("every cocycle works");
    assert_eq!(sp.dimension(), 1);
    let left = law("x ◇ y = x\n");
    match separates(&trivial_base(), 5, 2, 2, &sp, &left) {
        Verdict::Separates(c) => {
            let e = Extension { base: trivial_base(), m: 5, alpha: 2, beta: 2, cocycle: c };
            assert!(!holds(&e, &left));
        }
        v => panic!("expected a separating cocycle, got {v:?}"),
    }
    // Commutativity holds in every member, so it cannot be separated.
    assert_eq!(separates(&trivial_base(), 5, 2, 2, &sp, &comm), Verdict::Blocked);
}

#[test]
fn the_residual_is_absent_exactly_when_the_base_refutes_the_law() {
    let idem = law("x = x ◇ x\n");
    let e = Extension { base: z2_sum(), m: 3, alpha: 1, beta: 1, cocycle: vec![0, 0, 0, 0] };
    assert_eq!(law_residual(&e, &idem), None);
    let triv = law("x = x\n");
    assert_eq!(law_residual(&e, &triv), Some(vec![0, 0]));
}
