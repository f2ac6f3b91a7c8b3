//! Quadratic magmas, checked against the formula.

use parsimagma::quadratic::Quadratic;

#[test]
fn table_matches_the_defining_polynomial() {
    for n in 2u32..=9 {
        for code in [0u64, 1, 7, 137, 1009, 65537] {
            let q = Quadratic::from_code(n, code % Quadratic::grid_size(n));
            let m = q.magma();
            for x in 0..n {
                for y in 0..n {
                    let want =
                        (q.a * x * x + q.b * x * y + q.c * y * y + q.d * x + q.e * y + q.f) % n;
                    assert_eq!(m.op(x as u8, y as u8) as u32, want, "n={n} code={code}");
                }
            }
        }
    }
}

#[test]
fn code_decoding_covers_the_grid() {
    let n = 3u32;
    let total = Quadratic::grid_size(n);
    assert_eq!(total, 729);
    let mut seen = std::collections::HashSet::new();
    for code in 0..total {
        let q = Quadratic::from_code(n, code);
        assert!(seen.insert((q.a, q.b, q.c, q.d, q.e, q.f)));
    }
    assert_eq!(seen.len() as u64, total);
}
