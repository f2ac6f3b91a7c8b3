//! The pieces the command-line sweeps and writers are built from.

use parsimagma::corpus::{smallest_witness, Carrier, Corpus, Instance};
use parsimagma::corpus::{affine_hits, generic_hits, int_hits, linear_corpus, matrix_hits, one_sided_hits, poly_hits, zmod_hits};
use parsimagma::coverage::{minimal_cover, GraphCoverage};
use parsimagma::linear::LinearLaws;
use parsimagma::finite::{permutations, sweep_chunk, Scratch};
use parsimagma::quadratic::quad_chunk;
use parsimagma::transinv::transinv_chunk;
use parsimagma::{Dag, Engine};
use parsimagma::etpdata::{parse_open_questions, parse_partition_uncovered};
use parsimagma::finite::fill_digits;
use parsimagma::graph::{discharged, subproblem, Pair};
use parsimagma::problems::{render, render_ground, smt2_problem, Dialect};
use parsimagma::quadratic::Quadratic;
use parsimagma::transinv::{is_linear_function, TranslationInvariant};
use parsimagma::{parse_laws, FiniteMagma, Signature};

fn sig(n: usize, set: &[usize]) -> Signature {
    let mut s = Signature::zeros(n);
    for &i in set {
        s.set(i);
    }
    s
}

#[test]
fn digits_fill_a_table_least_significant_first() {
    let mut t = vec![9u8; 4];
    fill_digits(11, 3, &mut t);
    assert_eq!(t, vec![2, 0, 1, 0]);
    fill_digits(0, 2, &mut t);
    assert_eq!(t, vec![0, 0, 0, 0]);
    fill_digits(15, 2, &mut t);
    assert_eq!(t, vec![1, 1, 1, 1]);
}

#[test]
fn discharged_lists_the_separated_pairs_in_order() {
    let s = sig(4, &[0, 2]);
    let pairs = vec![(0, 1), (1, 0), (2, 3), (0, 2), (2, 1)];
    assert_eq!(discharged(&s, &pairs), vec![0, 2, 4]);
    assert!(discharged(&sig(4, &[]), &pairs).is_empty());
}

#[test]
fn subproblem_numbers_the_mentioned_laws() {
    let hard = vec![Pair { from: 40, to: 7 }, Pair { from: 7, to: 12 }, Pair { from: 40, to: 12 }];
    let (ids, pairs) = subproblem(&hard);
    assert_eq!(ids, vec![7, 12, 40]);
    assert_eq!(pairs, vec![(2, 0), (0, 1), (2, 1)]);
}

fn inst(carrier: Carrier, set: &[usize]) -> Instance {
    Instance {
        family: "test",
        params: String::new(),
        carrier,
        sig: sig(3, set),
    }
}

#[test]
fn smallest_witness_prefers_the_smallest_finite_carrier() {
    let p = Pair { from: 1, to: 2 };
    assert_eq!(smallest_witness(&[], p), None);
    let none = vec![inst(Carrier::Finite(3), &[1])];
    assert_eq!(smallest_witness(&none, p), None);
    let inf = vec![inst(Carrier::Infinite, &[0]), inst(Carrier::Finite(2), &[0, 1])];
    assert_eq!(smallest_witness(&inf, p), Some(None));
    let mixed = vec![
        inst(Carrier::Finite(9), &[0]),
        inst(Carrier::Infinite, &[0]),
        inst(Carrier::Finite(4), &[0, 2]),
        inst(Carrier::Finite(6), &[0]),
    ];
    assert_eq!(smallest_witness(&mixed, p), Some(Some(4)));
}

#[test]
fn linear_functions_are_recognised() {
    assert!(is_linear_function(&[0, 2, 4, 1, 3], 5));
    assert!(!is_linear_function(&[0, 2, 4, 1, 4], 5));
    assert!(!is_linear_function(&[1, 1, 1], 3));
    assert!(is_linear_function(&[0], 1));
}

#[test]
fn adds_anything_sees_only_new_pairs() {
    let mut gc = GraphCoverage::new(3);
    let a = sig(3, &[0]);
    assert!(gc.adds_anything(&a));
    gc.add(&a);
    assert!(!gc.adds_anything(&a));
    assert!(!gc.adds_anything(&sig(3, &[0, 1, 2])));
    assert!(gc.adds_anything(&sig(3, &[1])));
}

#[test]
fn terms_render_in_each_dialect() {
    let laws = parse_laws("x ◇ (y ◇ z) = (x ◇ y) ◇ z\n").unwrap();
    let l = &laws[0];
    assert_eq!(render(&l.lhs, Dialect::Tptp, false), "m(X0,m(X1,X2))");
    assert_eq!(render(&l.rhs, Dialect::Tptp, true), "m(m(sk0,sk1),sk2)");
    assert_eq!(render(&l.lhs, Dialect::Ladr, false), "f(x0,f(x1,x2))");
    assert_eq!(render(&l.lhs, Dialect::Ladr, true), "f(c0,f(c1,c2))");
    assert_eq!(render(&l.rhs, Dialect::Smt2, false), "(op (op x0 x1) x2)");
    assert_eq!(render(&l.rhs, Dialect::Smt2, true), "(op (op sk0 sk1) sk2)");
    assert_eq!(render_ground(&l.lhs, &[3, 0, 12]), "(op e3 (op e0 e12))");
}

#[test]
fn partition_files_give_the_unwitnessed_pairs() {
    let text = "set\tfrom\tto\tsmallest_witness\nunresolved\t1\t2\tnone\nunresolved\t3\t4\t5\nsaturation_refuted\t6\t7\tnone\nunresolved\t8\t9\tnone\r\nunresolved\t1\t2\tnone\textra\n";
    let got = parse_partition_uncovered(text).unwrap();
    assert_eq!(got, vec![Pair { from: 1, to: 2 }, Pair { from: 8, to: 9 }]);
    assert!(parse_partition_uncovered("header\nunresolved\tx\t2\tnone\n").is_none());
    assert_eq!(parse_partition_uncovered(""), Some(vec![]));
}

#[test]
fn open_question_lists_parse() {
    let text = "# set\tid\n\nfinite\t12\nhn\t7\tx = y ◇ x\n  \n";
    let got = parse_open_questions(text).unwrap();
    assert_eq!(got.len(), 2);
    assert_eq!((got[0].set.as_str(), got[0].id, got[0].law.clone()), ("finite", 12, None));
    assert_eq!(
        (got[1].set.as_str(), got[1].id, got[1].law.as_deref()),
        ("hn", 7, Some("x = y ◇ x"))
    );
    assert!(parse_open_questions("finite\n").is_none());
    assert!(parse_open_questions("finite\tx\n").is_none());
}

#[test]
fn linear_tables_with_a_plus_b_one_are_translation_invariant() {
    for n in 2usize..=7 {
        for b in 0..n {
            let a = (n + 1 - b % n) % n;
            let linear: Vec<u8> = (0..n * n)
                .map(|k| (((a * (k / n)) + (b * (k % n))) % n) as u8)
                .collect();
            let lm = FiniteMagma::new(n, linear).unwrap();
            let ti = TranslationInvariant::new(n, (0..n).map(|d| ((b * d) % n) as u8).collect());
            assert_eq!(lm, ti.magma(), "n={n} a={a} b={b}");
        }
    }
}

#[test]
fn quadratics_without_quadratic_terms_are_linear() {
    for n in 2u32..=6 {
        for d in 0..n {
            for e in 0..n {
                let q = Quadratic { n, a: 0, b: 0, c: 0, d, e, f: 0 };
                assert!(q.is_linear());
                let linear: Vec<u8> = (0..(n * n))
                    .map(|k| (((d * (k / n)) + (e * (k % n))) % n) as u8)
                    .collect();
                assert_eq!(FiniteMagma::new(n as usize, linear).unwrap(), q.magma());
            }
        }
    }
}

#[test]
fn families_keep_only_new_separating_rows() {
    let mut c = Corpus::new();
    c.add_family(
        "first",
        "three".to_string(),
        vec![
            ("a".to_string(), Carrier::Finite(2), sig(4, &[0, 1])),
            ("b".to_string(), Carrier::Finite(2), sig(4, &[0, 1, 2, 3])),
            ("c".to_string(), Carrier::Finite(3), sig(4, &[0, 1])),
            ("d".to_string(), Carrier::Infinite, sig(4, &[2])),
        ],
    );
    assert_eq!(c.instances.len(), 2);
    assert_eq!(c.instances[0].params, "a");
    assert_eq!(c.instances[1].params, "d");
    c.add_family(
        "second",
        "two".to_string(),
        vec![
            ("e".to_string(), Carrier::Finite(4), sig(4, &[2])),
            ("f".to_string(), Carrier::Finite(4), sig(4, &[3])),
            ("g".to_string(), Carrier::Finite(4), sig(4, &[])),
        ],
    );
    assert_eq!(c.instances.len(), 3);
    assert_eq!(c.instances[2].params, "f");
    assert_eq!(c.instances[2].family, "second");
    assert_eq!((c.grid[0].enumerated, c.grid[0].distinct), (4, 2));
    assert_eq!((c.grid[1].enumerated, c.grid[1].distinct), (3, 1));
    for i in 0..c.instances.len() {
        assert!(c.instances[i].sig.is_separating());
        for j in (i + 1)..c.instances.len() {
            assert_ne!(c.instances[i].sig.words(), c.instances[j].sig.words());
        }
    }
}

#[test]
fn matrices_are_listed_once_each_by_their_digits() {
    let all = parsimagma::corpus::enumerate_matrices(3, 2);
    assert_eq!(all.len(), 81);
    for (code, m) in all.iter().enumerate() {
        assert_eq!(m.len(), 4);
        let mut c = code as u64;
        for &e in m {
            assert_eq!(e, c % 3);
            c /= 3;
        }
    }
    let mut sorted = all.clone();
    sorted.sort();
    sorted.dedup();
    assert_eq!(sorted.len(), 81);
}

#[test]
fn the_cover_keeps_only_magmas_that_add_a_pair() {
    // Size 4 discharges (0,1) and (0,2); the size-2 magma adds (1,2); the
    // size-3 magma adds nothing.
    let sigs = vec![(4usize, sig(3, &[0])), (2, sig(3, &[0, 1])), (3, sig(3, &[0]))];
    let (keep, full, base, covered) = minimal_cover(&sigs, 4, 3);
    assert_eq!(keep, vec![1]);
    assert_eq!(full.count(), 3);
    assert_eq!(base.count(), 2);
    assert_eq!(covered.count(), full.count());
    assert_eq!(covered.bits(), full.bits());
}

#[test]
fn every_two_element_table_separates_a_true_law_from_a_false_one() {
    let laws = parse_laws("x = x\nx = y\n").unwrap();
    let e = Engine::new(Dag::build(&laws));
    let perms = permutations(2);
    let mut s = Scratch::new(&e.dag);
    let mut acc = GraphCoverage::new(2);
    // Sixteen tables, ten isomorphism classes, one canonical table each.
    let (sep, canon) = sweep_chunk(&e, 2, &perms, 0, 16, &mut s, &mut acc);
    assert_eq!((sep, canon), (10, 10));
    assert_eq!(acc.count(), 1);
    assert_eq!(acc.bits(), &[2u64, 0]);
    // An empty range changes nothing.
    let (sep, canon) = sweep_chunk(&e, 2, &perms, 5, 5, &mut s, &mut acc);
    assert_eq!((sep, canon), (0, 0));
    assert_eq!(acc.count(), 1);
}

#[test]
fn the_idempotent_translation_invariant_magma_that_is_no_projection() {
    // x ◇ y = x + f(y - x) on Z/2 is idempotent exactly when f(0) = 0, and a
    // left projection exactly when f is zero: only f = [0, 1] separates.
    let laws = parse_laws("x = x ◇ x\nx ◇ y = x\n").unwrap();
    let e = Engine::new(Dag::build(&laws));
    let mut s = Scratch::new(&e.dag);
    let found = transinv_chunk(&e, &vec![(0, 1)], 2, false, 0, 4, &mut s);
    assert_eq!(found, vec![(2usize, vec![0u8, 1], vec![0usize])]);
    let found = transinv_chunk(&e, &vec![(0, 1)], 2, true, 0, 2, &mut s);
    assert_eq!(found, vec![(2usize, vec![0u8, 1], vec![0usize])]);
}

#[test]
fn quadratic_chunks_skip_the_linear_instances() {
    let laws = parse_laws("x = x\nx = y\n").unwrap();
    let e = Engine::new(Dag::build(&laws));
    let mut s = Scratch::new(&e.dag);
    // Over Z/2 the codes with a = b = c = f = 0 are 0, 8, 16 and 24.
    let found = quad_chunk(&e, &vec![(0, 1)], 2, 0, 64, &mut s);
    assert_eq!(found.len(), 60);
    assert_eq!(found[0].0.a, 1);
    assert!(found.iter().all(|(q, g)| !q.is_linear() && g == &vec![0usize]));
    assert!(quad_chunk(&e, &vec![(0, 1)], 2, 8, 9, &mut s).is_empty());
}

#[test]
fn the_grid_keeps_one_z2_row_for_the_reflexive_and_left_absorbing_laws() {
    let laws = parse_laws("x = x\nx = x ◇ y\n").unwrap();
    let ll = LinearLaws::build(&laws);
    let c = linear_corpus(&ll);
    let enumerated: Vec<usize> = c.grid.iter().map(|g| g.enumerated).collect();
    assert_eq!(enumerated, vec![11439, 41230, 169, 2028, 625, 256, 6561, 3840, 2, 1]);
    let distinct: Vec<usize> = c.grid.iter().map(|g| g.distinct).collect();
    assert_eq!(distinct, vec![1, 0, 0, 0, 0, 0, 0, 0, 0, 0]);
    assert_eq!(c.instances.len(), 1);
    assert_eq!(c.instances[0].family, "linear/Z_m");
    assert_eq!(c.instances[0].params, "m=2 a=0 b=0");
    assert_eq!(c.instances[0].carrier, Carrier::Finite(2));
    assert!(c.instances[0].sig.get(0));
    assert!(!c.instances[0].sig.get(1));
    assert_eq!(c.grid[0].description, "x ◇ y = ax + by over Z/m, m = 2..32, all (a,b) in (Z/m)^2");
    assert_eq!(c.grid[2].description, "x ◇ y = ax + by over Z, a,b in [-6,6]");
    assert_eq!(c.grid[5].description, "x ◇ y = ax + by over M_2(F_2), all (a,b); carrier has 16 elements");
}

#[test]
fn smt2_problems_quantify_or_ground_the_hypothesis() {
    let laws = parse_laws("x = x ◇ x\nx ◇ y = y ◇ x\n").unwrap();
    let text = smt2_problem(&laws[0], &laws[1], 1, 2, 2, false);
    assert_eq!(
        text,
        "; E1 => E2 over a carrier of exactly 2\n(set-logic ALL)\n\
         (declare-datatypes ((M 0)) (((e0) (e1))))\n(declare-fun op (M M) M)\n\
         (assert (forall ((x0 M)) (= x0 (op x0 x0))))\n\
         (declare-const sk0 M)\n(declare-const sk1 M)\n\
         (assert (not (= (op sk0 sk1) (op sk1 sk0))))\n(check-sat)\n"
    );
    let ground = smt2_problem(&laws[0], &laws[1], 1, 2, 2, true);
    assert!(ground.contains("(assert (= e0 (op e0 e0)))\n(assert (= e1 (op e1 e1)))\n"));
    assert!(!ground.contains("forall"));
    let two = smt2_problem(&laws[1], &laws[0], 2, 1, 3, false);
    assert!(two.contains("(((e0) (e1) (e2))))"));
    assert!(two.contains("(assert (forall ((x0 M) (x1 M)) (= (op x0 x1) (op x1 x0))))\n"));
    assert!(two.contains("(declare-const sk0 M)\n(assert (not (= sk0 (op sk0 sk0))))\n"));
}

#[test]
fn the_open_question_scan_lists_each_model_and_law_in_grid_order() {
    let laws = parse_laws("x = x\nx = x ◇ y\n").unwrap();
    let ll = LinearLaws::build(&laws);
    // Over Z/2 every linear model satisfies x = x; only a = 1, b = 0 also
    // satisfies x = x ◇ y.
    assert_eq!(
        zmod_hits(&ll, 2),
        vec![(0usize, 2u64, 0u64, 0u64), (0, 2, 0, 1), (0, 2, 1, 0), (1, 2, 1, 0), (0, 2, 1, 1)]
    );
    // With c = 1, x = ax + by + 1 never holds.
    assert_eq!(
        affine_hits(&ll, 2),
        vec![(0usize, 2u64, 0u64, 0u64, 1u64), (0, 2, 0, 1, 1), (0, 2, 1, 0, 1), (0, 2, 1, 1, 1)]
    );
    assert!(zmod_hits(&ll, 1).is_empty());
    assert_eq!(zmod_hits(&ll, 3).len(), 5 + 9 + 1);
}

#[test]
fn the_remaining_grids_are_scanned_for_hits() {
    let laws = parse_laws("x = x\nx = x ◇ y").unwrap();
    let ll = LinearLaws::build(&laws);
    // x = x holds in every model; x = x ◇ y only where a = 1 and b = 0.
    let m2 = matrix_hits(&ll, 2);
    assert_eq!(m2.len(), 256 + 1);
    assert_eq!(m2.iter().filter(|h| h.0 == 1).collect::<Vec<_>>(), vec![&(1usize, vec![1u64, 0, 0, 1], vec![0u64, 0, 0, 0])]);
    assert_eq!(m2[0], (0usize, vec![0u64, 0, 0, 0], vec![0u64, 0, 0, 0]));
    assert_eq!(m2[1], (0usize, vec![0u64, 0, 0, 0], vec![1u64, 0, 0, 0]));
    assert_eq!(matrix_hits(&ll, 3).len(), 81 * 81 + 1);
    let z = int_hits(&ll);
    assert_eq!(z.len(), 169 + 1);
    assert_eq!(z[0], (0usize, -6i128, -6i128));
    assert_eq!(z.iter().filter(|h| h.0 == 1).collect::<Vec<_>>(), vec![&(1usize, 1i128, 0i128)]);
    let zt = poly_hits(&ll);
    assert_eq!(zt.len(), 625 + 1);
    assert_eq!(zt[0], (0usize, -2i128, -2i128, -2i128, -2i128));
    assert_eq!(zt.iter().filter(|h| h.0 == 1).collect::<Vec<_>>(), vec![&(1usize, 1i128, 0i128, 0i128, 0i128)]);
    assert_eq!(generic_hits(&ll), vec![(0usize, 0usize), (0, 1)]);
    assert_eq!(one_sided_hits(&ll), vec![0usize]);
}
