//! Signature packing.

use parsimagma::{Signature, N_LAWS_ORDER4};

#[test]
fn signature_bytes_round_trip() {
    let mut s = Signature::zeros(N_LAWS_ORDER4);
    for i in [0usize, 1, 63, 64, 100, 4693] {
        s.set(i);
    }
    let bytes = s.to_bytes();
    assert_eq!(bytes.len(), 587, "4694 bits pack into 587 bytes");
    assert_eq!(Signature::from_bytes(N_LAWS_ORDER4, &bytes), s);
    assert_eq!(s.count(), 6);
    assert_eq!(s.separations(), 6 * (4694 - 6));
}
