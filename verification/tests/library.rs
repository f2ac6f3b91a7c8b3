//! Checks of the library on small, hand-written inputs.

use parsimagma::coverage::GraphCoverage;
use parsimagma::etpdata::{
    parse_refutations, parse_smallest_examples, parse_smallest_sizes, read_bytes, read_text,
    tables_balanced,
};
use parsimagma::finite::{is_canonical, permutations};
use parsimagma::graph::{parse_pairs, separates, ImplicationGraph, Pair};
use parsimagma::linear::{AffineModel, LinearLaws, LinearModel, RingOps};
use parsimagma::rings::{FreeComm, FreeNc, Integers, MatFp, OneSidedInverse, PolyZ, Zmod};
use parsimagma::twist::TwistedPower;
use parsimagma::{parse_laws, Dag, Engine, FiniteMagma, Signature};
use parsimagma::nc::{word_index, word_of, NcPoly};
use std::collections::HashSet;
use std::io::Write;

const LAWS: &str = "x = x\nx = y\nx = x ◇ x\nx ◇ y = y ◇ x\nx ◇ (y ◇ z) = (x ◇ y) ◇ z\nx = x ◇ y\n";

fn engine() -> (Vec<parsimagma::Law>, Engine) {
    let laws = parse_laws(LAWS).expect("the sample laws parse");
    let e = Engine::new(Dag::build(&laws));
    (laws, e)
}

fn bits(s: &Signature) -> Vec<usize> {
    s.iter_set()
}

#[test]
fn sample_laws_parse_with_ids_and_arities() {
    let (laws, _) = engine();
    assert_eq!(laws.len(), 6);
    let ids: Vec<u32> = laws.iter().map(|l| l.id).collect();
    assert_eq!(ids, vec![1, 2, 3, 4, 5, 6]);
    let arities: Vec<u8> = laws.iter().map(|l| l.arity).collect();
    assert_eq!(arities, vec![1, 2, 1, 2, 3, 2]);
}

#[test]
fn a_bad_line_is_reported_by_its_number() {
    let err = parse_laws("x = x\n\nx = (y ◇\n").unwrap_err();
    assert_eq!(err.line, 3);
    assert!(parse_laws("x ◇ y\n").is_err());
    assert!(parse_laws("a = b = c = d = e = f = g\n").is_err());
}

#[test]
fn engine_signatures_of_small_magmas() {
    let (_, e) = engine();
    let single = FiniteMagma::new(1, vec![0]).unwrap();
    assert_eq!(bits(&e.signature(&single)), vec![0, 1, 2, 3, 4, 5]);
    // Z/2 under addition: commutative and associative, nothing else here.
    let z2 = FiniteMagma::new(2, vec![0, 1, 1, 0]).unwrap();
    assert_eq!(bits(&e.signature(&z2)), vec![0, 3, 4]);
    // Left projection x ◇ y = x.
    let left = FiniteMagma::new(2, vec![0, 0, 1, 1]).unwrap();
    assert_eq!(bits(&e.signature(&left)), vec![0, 2, 4, 5]);
}

#[test]
fn bad_tables_are_refused() {
    assert!(FiniteMagma::new(0, vec![]).is_err());
    assert!(FiniteMagma::new(2, vec![0, 1, 1]).is_err());
    assert!(FiniteMagma::new(2, vec![0, 1, 1, 2]).is_err());
    assert!(FiniteMagma::from_rows(&[vec![0, 1], vec![1]]).is_err());
    let m = FiniteMagma::from_rows(&[vec![0, 1], vec![1, 0]]).unwrap();
    assert_eq!(m.n, 2);
    assert_eq!(m.table, vec![0, 1, 1, 0]);
    assert_eq!(m.op(1, 0), 1);
}

#[test]
fn refutation_files_parse_into_entries() {
    let text = "# header\nTable [[0, 0], [1, 0]]\nProves [1, 3]\n\nTable [[0]]\nProves []\n";
    let entries = parse_refutations(text).unwrap();
    assert_eq!(entries.len(), 2);
    assert_eq!(entries[0].magma.n, 2);
    assert_eq!(entries[0].magma.table, vec![0, 0, 1, 0]);
    assert_eq!(entries[0].proves, vec![1, 3]);
    assert_eq!(entries[1].magma.n, 1);
    assert!(entries[1].proves.is_empty());
}

#[test]
fn refutation_files_refuse_bad_entries() {
    assert!(parse_refutations("Proves [1]\n").is_err());
    assert!(parse_refutations("Table [[0, 1], [1]]\nProves [1]\n").is_err());
    assert!(parse_refutations("Table [[0, 2], [1, 0]]\nProves [1]\n").is_err());
    assert!(parse_refutations("Table [[0]]\nProves [x]\n").is_err());
    assert!(parse_refutations("Table [[0]]\nProves 1\n").is_err());
    assert!(parse_refutations("Table [[300]]\nProves [1]\n").is_err());
}

#[test]
fn smallest_example_files_parse() {
    let got = parse_smallest_examples("12 [[0]]\n\n7 [[1, 0], [0, 1]]\n").unwrap();
    assert_eq!(got.len(), 2);
    assert_eq!(got[0].0, 12);
    assert_eq!(got[0].1.n, 1);
    assert_eq!(got[1].0, 7);
    assert_eq!(got[1].1.table, vec![1, 0, 0, 1]);
    assert!(parse_smallest_examples("12\n").is_err());
    assert!(parse_smallest_examples("x [[0]]\n").is_err());
}

#[test]
fn smallest_size_files_parse() {
    let got = parse_smallest_sizes("3 2\n\n  5\t4 extra\n").unwrap();
    assert_eq!(got, vec![(3, 2), (5, 4)]);
    assert!(parse_smallest_sizes("3\n").is_err());
    assert!(parse_smallest_sizes("3 -1\n").is_err());
    assert!(parse_smallest_sizes("99999999999 1\n").is_err());
}

fn gzip(data: &[u8]) -> Vec<u8> {
    let mut e = flate2::write::GzEncoder::new(Vec::new(), flate2::Compression::default());
    e.write_all(data).unwrap();
    e.finish().unwrap()
}

#[test]
fn data_files_decompress_when_only_the_gzip_copy_exists() {
    let gz = gzip(b"Table [[0]]\n");
    assert_ne!(gz, b"Table [[0]]\n".to_vec());
    assert_eq!(read_bytes(None, Some(gz.clone())), Some(b"Table [[0]]\n".to_vec()));
    assert_eq!(read_bytes(Some(b"plain".to_vec()), Some(gz.clone())), Some(b"plain".to_vec()));
    assert_eq!(read_bytes(None, None), None);
    assert_eq!(read_bytes(None, Some(b"not gzip".to_vec())), None);
    assert_eq!(read_text(None, Some(gz)), Some("Table [[0]]\n".to_string()));
    assert_eq!(read_text(Some(vec![0xff, 0xfe]), None), None);
}

#[test]
fn permutations_list_each_ordering_once() {
    let p = permutations(3);
    assert_eq!(p.len(), 6);
    let mut seen = std::collections::HashSet::new();
    for q in &p {
        let mut s = q.clone();
        s.sort_unstable();
        assert_eq!(s, vec![0, 1, 2]);
        assert!(seen.insert(q.clone()));
    }
    assert_eq!(permutations(0), vec![Vec::<u8>::new()]);
}

#[test]
fn canonical_form_is_the_least_relabelling() {
    let perms = permutations(2);
    let mut buf = vec![0u8; 4];
    // Left projection [0,0,1,1] relabels to itself; constant 0 relabels to
    // constant 1, which is larger.
    assert!(is_canonical(&[0, 0, 1, 1], 2, &perms, &mut buf));
    assert!(is_canonical(&[0, 0, 0, 0], 2, &perms, &mut buf));
    assert!(!is_canonical(&[1, 1, 1, 1], 2, &perms, &mut buf));
}

#[test]
fn pair_lists_parse_and_separate() {
    let pairs = parse_pairs("1 2\n# comment\n\n3 4 extra\n").unwrap();
    assert_eq!(pairs, vec![Pair { from: 1, to: 2 }, Pair { from: 3, to: 4 }]);
    assert!(parse_pairs("1\n").is_err());
    assert!(parse_pairs("a b\n").is_err());
    let mut s = Signature::zeros(4);
    s.set(0);
    assert!(separates(&s, Pair { from: 1, to: 2 }));
    assert!(!separates(&s, Pair { from: 2, to: 1 }));
}

#[test]
fn graph_coverage_records_separations_and_checks_them() {
    let mut s = Signature::zeros(3);
    s.set(0);
    let mut gc = GraphCoverage::new(3);
    gc.add(&s);
    assert_eq!(gc.count(), 2);
    // A graph where E1 implies only itself and everything implies itself.
    let ok = ImplicationGraph::from_bytes(3, vec![0b001, 0b010, 0b100]);
    assert_eq!(gc.check_against(&ok), Ok(()));
    // A graph that claims E1 implies E2 contradicts the signature.
    let bad = ImplicationGraph::from_bytes(3, vec![0b011, 0b010, 0b100]);
    assert_eq!(gc.check_against(&bad), Err((1, 2)));
}

#[test]
fn signature_counts_and_separations() {
    let mut s = Signature::zeros(70);
    assert!(!s.is_separating());
    s.set(3);
    s.set(65);
    assert_eq!(s.count(), 2);
    assert_eq!(s.separations(), 2 * 68);
    assert!(s.is_separating());
    assert_eq!(s.iter_set(), vec![3, 65]);
}

#[test]
fn linear_models_agree_with_their_tables() {
    let (laws, e) = engine();
    let ll = LinearLaws::build(&laws);
    for m in 2u64..=5 {
        for a in 0..m {
            for b in 0..m {
                let sym = LinearModel::new(Zmod { m }, a, b).signature(&ll);
                let n = m as usize;
                let table: Vec<u8> = (0..n * n)
                    .map(|k| ((a as usize * (k / n) + b as usize * (k % n)) % n) as u8)
                    .collect();
                let magma = FiniteMagma::new(n, table).unwrap();
                assert_eq!(sym, e.signature(&magma), "Z/{m} a={a} b={b}");
            }
        }
    }
}

#[test]
fn affine_models_agree_with_their_tables() {
    let (laws, e) = engine();
    let ll = LinearLaws::build(&laws);
    for m in 2u64..=4 {
        for a in 0..m {
            for b in 0..m {
                for c in 1..m {
                    let sym = AffineModel::new(Zmod { m }, a, b, c).signature(&ll);
                    let n = m as usize;
                    let table: Vec<u8> = (0..n * n)
                        .map(|k| {
                            ((a as usize * (k / n) + b as usize * (k % n) + c as usize) % n) as u8
                        })
                        .collect();
                    let magma = FiniteMagma::new(n, table).unwrap();
                    assert_eq!(sym, e.signature(&magma), "Z/{m} a={a} b={b} c={c}");
                }
            }
        }
    }
}

#[test]
fn twisted_powers_agree_with_their_tables() {
    let (laws, e) = engine();
    let base = parsimagma::twist::nand_f2();
    for k in 1usize..=3 {
        for sh in 0..k {
            let tw = TwistedPower::cyclic(base.clone(), k, sh, 0);
            let table = tw.table().expect("small enough to tabulate");
            assert_eq!(tw.carrier_size(), 2usize.pow(k as u32));
            assert_eq!(tw.signature(&laws), e.signature(&table), "k={k} shift={sh}");
        }
    }
}

#[test]
fn linear_tables_name_the_products() {
    let elements: Vec<u64> = (0..5).collect();
    let t = LinearModel::new(Zmod { m: 5 }, 2, 3).table(&elements);
    assert_eq!(t.len(), 25);
    for x in 0..5usize {
        for y in 0..5usize {
            assert_eq!(t[x * 5 + y] as usize, (2 * x + 3 * y) % 5);
        }
    }
    let t = AffineModel::new(Zmod { m: 4 }, 1, 1, 3).table(&(0..4).collect::<Vec<u64>>());
    assert_eq!(t[1 * 4 + 2], 2);
}

#[test]
fn matrix_models_agree_with_their_tables() {
    let (laws, e) = engine();
    let ll = LinearLaws::build(&laws);
    let r = MatFp { p: 2, k: 2 };
    let mats = parsimagma::corpus::enumerate_matrices(2, 2);
    assert_eq!(mats.len(), 16);
    for (a, b) in [(1usize, 2usize), (5, 9), (3, 3), (6, 10)] {
        let model = LinearModel::new(r.clone(), mats[a].clone(), mats[b].clone());
        let magma = FiniteMagma::new(16, model.table(&mats)).unwrap();
        assert_eq!(model.signature(&ll), e.signature(&magma), "a={a} b={b}");
    }
}

#[test]
fn affine_matrix_models_agree_with_their_tables() {
    let (laws, e) = engine();
    let ll = LinearLaws::build(&laws);
    let r = MatFp { p: 2, k: 2 };
    let mats = parsimagma::corpus::enumerate_matrices(2, 2);
    for (a, b, c) in [(1usize, 2usize, 4usize), (5, 9, 15), (3, 3, 1), (6, 10, 8), (15, 0, 9)] {
        let model = AffineModel::new(r.clone(), mats[a].clone(), mats[b].clone(), mats[c].clone());
        let magma = FiniteMagma::new(16, model.table(&mats)).unwrap();
        assert_eq!(model.signature(&ll), e.signature(&magma), "a={a} b={b} c={c}");
    }
}

#[test]
fn generic_model_is_contained_in_every_specialisation() {
    let (laws, _) = engine();
    let ll = LinearLaws::build(&laws);
    let generic = LinearModel::new(FreeNc, FreeNc.gen_a(), FreeNc.gen_b()).signature(&ll);
    // Only x = x holds identically among the sample laws.
    assert_eq!(generic.iter_set(), vec![0]);
    for m in 2u64..=6 {
        for a in 0..m {
            for b in 0..m {
                let s = LinearModel::new(Zmod { m }, a, b).signature(&ll);
                for i in generic.iter_set() {
                    assert!(s.get(i), "E{} fails in Z/{m} a={a} b={b}", i + 1);
                }
            }
        }
    }
}

#[test]
fn rings_name_themselves_and_count_their_carriers() {
    assert_eq!(Zmod { m: 13 }.name(), "Z/13");
    assert_eq!(Zmod { m: 7 }.name(), "Z/7");
    assert_eq!(MatFp { p: 3, k: 2 }.name(), "M_2(F_3)");
    assert_eq!(Integers.name(), "Z");
    assert_eq!(FreeNc.name(), "Z<a,b> (generic noncommutative)");
    assert_eq!(FreeComm.name(), "Z[a,b] (generic commutative)");
    assert_eq!(OneSidedInverse.name(), "Z<a,b>/(ba+1)");
    assert_eq!(PolyZ.name(), "Z[t]");
    assert_eq!(Zmod { m: 13 }.carrier_size(), Some(13));
    assert_eq!(MatFp { p: 3, k: 2 }.carrier_size(), Some(81));
    assert_eq!(Integers.carrier_size(), None);
    assert_eq!(PolyZ.carrier_size(), None);
    assert!(PolyZ.zero().is_empty());
}

#[test]
fn seven_variables_parse_and_eight_are_refused() {
    let laws = parse_laws("a = ((b ◇ c) ◇ (d ◇ e)) ◇ ((f ◇ g) ◇ a)\n").expect("seven variables parse");
    assert_eq!(laws[0].arity, 7);
    let err = parse_laws("a = ((b ◇ c) ◇ (d ◇ e)) ◇ ((f ◇ g) ◇ h)\n").unwrap_err();
    assert_eq!(err.line, 1);
    assert_eq!(err.msg, "8 distinct variables, expected at most 7");
}

#[test]
fn pair_lists_name_the_line_and_field_that_fail() {
    assert_eq!(
        parse_pairs("# hdr\n1 2\n\n  3 4 extra\n"),
        Ok(vec![Pair { from: 1, to: 2 }, Pair { from: 3, to: 4 }])
    );
    assert_eq!(parse_pairs("1 2\n5 x"), Err("line 2: bad target".to_string()));
    assert_eq!(parse_pairs("a 2"), Err("line 1: bad source".to_string()));
    assert_eq!(parse_pairs("# c\n\n7\n"), Err("line 3: bad target".to_string()));
}

#[test]
fn a_term_shows_its_variables_as_letters() {
    let v = parse_laws("x = x\ny = x\n\ny = y ◇ z").unwrap();
    assert_eq!(v[2].rhs.show(), "(a ◇ b)");
    assert_eq!(v[0].lhs.show(), "a");
    let w = parse_laws("x = (y ◇ x) ◇ (z ◇ (x ◇ y))").unwrap();
    assert_eq!(w[0].rhs.show(), "((b ◇ a) ◇ (c ◇ (a ◇ b)))");
}

#[test]
fn the_plan_evaluates_only_what_each_arity_needs() {
    let laws = parse_laws("x = x ◇ x\nx ◇ y = y ◇ x").unwrap();
    let e = Engine::new(Dag::build(&laws));
    assert_eq!(e.cost(2), 10);
    assert_eq!(e.cost(3), 21);
    assert_eq!(e.plan.buckets.len(), 2);
    assert_eq!(e.plan.buckets[0].order, vec![7u32]);
    assert_eq!(e.plan.buckets[1].order.len(), 2);
}

#[test]
fn a_stray_bracket_in_a_table_is_found_before_parsing() {
    assert!(tables_balanced("Table [[0, 0], [1, 0]]\nProves [1, 8, 10]\n"));
    assert!(!tables_balanced("Table [0]]]\nProves [1]\n"));
    // A file that is refused before the stray bracket is balanced as read.
    assert!(tables_balanced("Proves [1]\nTable [0]]]\n"));
    assert!(tables_balanced(""));
}

#[test]
fn a_data_file_error_names_its_line_and_cause() {
    assert_eq!(
        parse_refutations("Proves [1]").err().unwrap(),
        "line 1: Proves without a preceding Table"
    );
    assert_eq!(
        parse_refutations("Table [[0, 0], [1, 0]]\nProves [1, x]").err().unwrap(),
        "line 2: \"x\": invalid digit found in string"
    );
    assert_eq!(parse_refutations("Table 0\n").err().unwrap(), "line 1: not a table: \"0\"");
    assert_eq!(parse_refutations("Table [[0]]\nProves 1").err().unwrap(), "line 2: not a list: \"1\"");
    assert_eq!(parse_smallest_examples("3").err().unwrap(), "line 1: no space separator");
    assert_eq!(
        parse_smallest_examples("x [[0]]").err().unwrap(),
        "line 1: invalid digit found in string"
    );
    assert_eq!(
        parse_smallest_examples("7 [[300]]").err().unwrap(),
        "line 1: \"300\": number too large to fit in target type"
    );
    assert_eq!(parse_smallest_sizes("5").err().unwrap(), "line 1: no size");
    assert_eq!(parse_smallest_sizes("x 2").err().unwrap(), "line 1: invalid digit found in string");
    assert_eq!(parse_smallest_sizes("\n4 -1").err().unwrap(), "line 2: invalid digit found in string");
}

#[test]
fn merging_coverage_keeps_every_pair_in_any_order() {
    let sig_of = |set: &[usize]| {
        let mut s = Signature::zeros(3);
        for &i in set {
            s.set(i);
        }
        s
    };
    let mut one = GraphCoverage::new(3);
    one.add(&sig_of(&[0]));
    let mut two = GraphCoverage::new(3);
    two.add(&sig_of(&[1, 2]));
    let mut three = GraphCoverage::new(3);
    three.add(&sig_of(&[2]));
    let before = one.count();
    let mut ab = GraphCoverage::new(3);
    ab.or_bits(one.bits());
    ab.or_bits(two.bits());
    ab.or_bits(three.bits());
    let mut ba = GraphCoverage::new(3);
    ba.or_bits(three.bits());
    ba.or_bits(two.bits());
    ba.or_bits(one.bits());
    assert_eq!(ab.bits(), ba.bits());
    assert!(ab.count() >= before);
    assert!(ab.count() >= two.count());
}

#[test]
fn decoding_distinct_codes_gives_distinct_operations() {
    let n = 2u32;
    let mut seen = HashSet::new();
    for code in 0..64u64 {
        let q = parsimagma::quadratic::Quadratic::from_code(n, code);
        assert!(seen.insert((q.a, q.b, q.c, q.d, q.e, q.f)));
    }
    assert_eq!(seen.len(), 64);
}

#[test]
fn word_indices_and_words_correspond() {
    for i in 0..31usize {
        let (len, bits) = word_of(i);
        assert_eq!(word_index(len, bits), i);
    }
    assert_eq!(word_of(word_index(3, 5)), (3, 5));
}

#[test]
fn the_commutative_image_of_a_difference_is_the_difference_of_images() {
    let mut p = NcPoly::zero();
    p.add_word(2, 1, 3);
    p.add_word(2, 2, 1);
    let mut q = NcPoly::zero();
    q.add_word(2, 2, 5);
    q.add_word(1, 0, 2);
    let d = p.sub(&q).commutative_image();
    let (ip, iq) = (p.commutative_image(), q.commutative_image());
    for m in 0..15 {
        assert_eq!(d[m], ip[m] - iq[m]);
    }
    // ab and ba share the image a·b: 3 + 1 - 5.
    assert_eq!(d[4], -1);
}

#[test]
fn a_bad_table_says_what_is_wrong() {
    assert_eq!(FiniteMagma::new(0, vec![]).err().unwrap().0, "carrier size 0 out of range 1..=255");
    assert_eq!(FiniteMagma::new(2, vec![0]).err().unwrap().0, "table has 1 entries, expected 4");
    assert_eq!(FiniteMagma::new(2, vec![0, 3, 5, 0]).err().unwrap().0, "entry 3 outside carrier of size 2");
    assert_eq!(
        FiniteMagma::from_rows(&[vec![0, 1], vec![0]]).err().unwrap().0,
        "row of length 1 in a 2-element table"
    );
}
