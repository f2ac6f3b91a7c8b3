//! The canonical-form filter behind the exhaustive sweep.

use parsimagma::finite::{is_canonical, permutations};

/// Exhaustive enumeration reproduces the number of magmas up to isomorphism
/// at orders 2 and 3, which is an independent check on the canonical-form
/// filter that the coverage counts depend on.
#[test]
fn canonical_filter_counts_magmas_up_to_isomorphism() {
    // OEIS A001329: 1, 10, 3330, 178981952 magmas of order 1, 2, 3, 4 up to
    // isomorphism.
    for (n, expect) in [(1usize, 1usize), (2, 10), (3, 3330)] {
        let perms = permutations(n);
        let total = (n as u64).pow((n * n) as u32);
        let mut table = vec![0u8; n * n];
        let mut buf = vec![0u8; n * n];
        let mut count = 0usize;
        for code in 0..total {
            let mut v = code;
            for cell in table.iter_mut() {
                *cell = (v % n as u64) as u8;
                v /= n as u64;
            }
            if is_canonical(&table, n, &perms, &mut buf) {
                count += 1;
            }
        }
        assert_eq!(count, expect, "magmas of order {n} up to isomorphism");
    }
}
