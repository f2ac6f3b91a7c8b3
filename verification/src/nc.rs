//! Noncommutative polynomials in two indeterminates, truncated at degree 4.
//!
//! A word in `{a, b}` of length at most 4 is all that a law of order at most
//! 4 can produce: the coefficient of a variable occurrence in a linear magma
//! is the root-to-leaf path to that occurrence, and the path is at most as
//! long as the term is deep. There are `2^0 + ... + 2^4 = 31` such words, so
//! a polynomial is a fixed array.

use vstd::arithmetic::power2::pow2;
use vstd::prelude::*;

verus! {

/// Longest root-to-leaf path in a term of order at most 4.
pub const MAX_DEG: usize = 4;

/// Number of words in `{a, b}` of length at most `MAX_DEG`.
pub const N_WORDS: usize = 31;

/// Number of commutative monomials `a^i b^j` with `i + j <= MAX_DEG`.
pub const N_MONOMIALS: usize = 15;

/// Index of the word of length `len` whose letters, read root-to-leaf, are
/// the bits of `bits` from most to least significant.
pub open spec fn spec_word_index(len: nat, bits: nat) -> nat {
    (pow2(len) - 1 + bits) as nat
}

/// Length of the word at `index`, for indices below `N_WORDS`.
pub open spec fn spec_word_len(index: nat) -> nat {
    if index < 1 {
        0
    } else if index < 3 {
        1
    } else if index < 7 {
        2
    } else if index < 15 {
        3
    } else {
        4
    }
}

/// Letters of the word at `index`, as bits.
pub open spec fn spec_word_bits(index: nat) -> nat {
    (index + 1 - pow2(spec_word_len(index))) as nat
}

/// Number of `b` letters (one bits) among the low `len` bits of `bits`.
pub open spec fn ones(bits: nat, len: nat) -> nat
    decreases len,
{
    if len == 0 {
        0
    } else {
        bits % 2 + ones(bits / 2, (len - 1) as nat)
    }
}

/// `(deg_a, deg_b)` of the word at `index`.
pub open spec fn spec_word_degrees(index: nat) -> (nat, nat) {
    let len = spec_word_len(index);
    let db = ones(spec_word_bits(index), len);
    ((len - db) as nat, db)
}

/// Index of `a^da b^db` among monomials of total degree at most 4: those of
/// smaller total degree come first.
pub open spec fn spec_monomial_index(da: nat, db: nat) -> nat {
    (da + db) * (da + db + 1) / 2 + db
}

proof fn lemma_pow2_small()
    ensures
        pow2(0) == 1,
        pow2(1) == 2,
        pow2(2) == 4,
        pow2(3) == 8,
        pow2(4) == 16,
        pow2(5) == 32,
{
    vstd::arithmetic::power2::lemma2_to64();
}

proof fn lemma_ones_bound(bits: nat, len: nat)
    ensures
        ones(bits, len) <= len,
    decreases len,
{
    if len > 0 {
        lemma_ones_bound(bits / 2, (len - 1) as nat);
    }
}

/// Index of the word of length `len` whose letters, read root-to-leaf, are
/// the bits of `bits` from most to least significant (`0` = a, `1` = b).
pub fn word_index(len: u32, bits: u32) -> (r: usize)
    requires
        len < 32,
        pow2(len as nat) - 1 + bits <= u32::MAX,
    ensures
        r == spec_word_index(len as nat, bits as nat),
{
    proof {
        vstd::bits::lemma_u32_pow2_no_overflow(len as nat);
        vstd::bits::lemma_u32_shl_is_mul(1u32, len);
    }
    ((1u32 << len) - 1 + bits) as usize
}

/// `(len, bits)` for a word index.
pub fn word_of(index: usize) -> (r: (u32, u32))
    requires
        index < N_WORDS,
    ensures
        r.0 == spec_word_len(index as nat),
        r.1 == spec_word_bits(index as nat),
        r.0 <= MAX_DEG,
        r.1 < pow2(r.0 as nat),
        spec_word_index(r.0 as nat, r.1 as nat) == index,
{
    proof {
        lemma_pow2_small();
    }
    let mut len = 0u32;
    let mut base = 0u32;
    let mut width = 1u32;
    while len <= MAX_DEG as u32
        invariant
            index < N_WORDS,
            len <= 5,
            width == pow2(len as nat),
            base + 1 == width,
            index >= base,
            pow2(0) == 1,
            pow2(1) == 2,
            pow2(2) == 4,
            pow2(3) == 8,
            pow2(4) == 16,
            pow2(5) == 32,
        decreases 5 - len,
    {
        if (index as u32) < base + width {
            return (len, index as u32 - base);
        }
        base = base + width;
        proof {
            vstd::arithmetic::power2::lemma_pow2_unfold((len + 1) as nat);
        }
        width = width * 2;
        len = len + 1;
    }
    proof {
        assert(false);
    }
    (0, 0)
}

/// Degrees `(deg_a, deg_b)` of a word, for use in commutative rings.
pub fn word_degrees(index: usize) -> (r: (u32, u32))
    requires
        index < N_WORDS,
    ensures
        r.0 == spec_word_degrees(index as nat).0,
        r.1 == spec_word_degrees(index as nat).1,
        r.0 + r.1 == spec_word_len(index as nat),
{
    let (len, bits) = word_of(index);
    let mut b = bits;
    let mut db = 0u32;
    let mut k = 0u32;
    while k < len
        invariant
            k <= len,
            len <= 4,
            db <= k,
            db + ones(b as nat, (len - k) as nat) == ones(bits as nat, len as nat),
        decreases len - k,
    {
        db = db + b % 2;
        b = b / 2;
        k = k + 1;
    }
    proof {
        lemma_ones_bound(bits as nat, len as nat);
    }
    (len - db, db)
}

/// Index of `a^da b^db` among monomials of total degree at most 4.
pub fn monomial_index(da: u32, db: u32) -> (r: usize)
    requires
        da + db <= u32::MAX,
        (da + db) * (da + db + 1) <= usize::MAX,
        (da + db) * (da + db + 1) / 2 + db <= usize::MAX,
    ensures
        r == spec_monomial_index(da as nat, db as nat),
{
    let d = (da + db) as usize;
    proof {
        assert(d + 1 <= usize::MAX) by (nonlinear_arith)
            requires
                d * (d + 1) <= usize::MAX,
        ;
    }
    d * (d + 1) / 2 + db as usize
}

/// A truncated noncommutative polynomial with integer coefficients: slot
/// `spec_word_index(len, bits)` holds the coefficient of that word.
#[derive(Clone, Copy, PartialEq, Eq, Debug)]
pub struct NcPoly {
    pub c: [i32; N_WORDS],
}

/// Sum of the coefficients in `c[..upto]` of words whose commutative image
/// is monomial `m`.
pub open spec fn comm_partial(c: Seq<i32>, m: nat, upto: nat) -> int
    decreases upto,
{
    if upto == 0 {
        0
    } else {
        let i = (upto - 1) as nat;
        comm_partial(c, m, i) + if spec_monomial_index(
            spec_word_degrees(i).0,
            spec_word_degrees(i).1,
        ) == m {
            c[i as int] as int
        } else {
            0
        }
    }
}

impl NcPoly {
    /// The zero polynomial.
    pub fn zero() -> (p: NcPoly)
        ensures
            forall|i: int| 0 <= i < N_WORDS ==> p.c@[i] == 0,
    {
        NcPoly { c: [0i32; 31] }
    }

    /// Add `k` to the coefficient of the word `(len, bits)`.
    pub fn add_word(&mut self, len: u32, bits: u32, k: i32)
        requires
            len < 32,
            pow2(len as nat) - 1 + bits <= u32::MAX,
            spec_word_index(len as nat, bits as nat) < N_WORDS,
            i32::MIN <= old(self).c@[spec_word_index(len as nat, bits as nat) as int] + k
                <= i32::MAX,
        ensures
            final(self).c@ == old(self).c@.update(
                spec_word_index(len as nat, bits as nat) as int,
                (old(self).c@[spec_word_index(len as nat, bits as nat) as int] + k) as i32,
            ),
    {
        let w = word_index(len, bits);
        let v = self.c[w] + k;
        self.c[w] = v;
    }

    /// Is every coefficient zero?
    pub fn is_zero(&self) -> (b: bool)
        ensures
            b == (forall|i: int| 0 <= i < N_WORDS ==> self.c@[i] == 0),
    {
        let mut i: usize = 0;
        while i < N_WORDS
            invariant
                i <= N_WORDS,
                forall|q: int| 0 <= q < i ==> self.c@[q] == 0,
            decreases N_WORDS - i,
        {
            if self.c[i] != 0 {
                return false;
            }
            i = i + 1;
        }
        true
    }

    /// Coefficient-wise difference.
    pub fn sub(&self, other: &NcPoly) -> (out: NcPoly)
        requires
            forall|i: int|
                0 <= i < N_WORDS ==> i32::MIN <= #[trigger] self.c@[i] - other.c@[i] <= i32::MAX,
        ensures
            forall|i: int| 0 <= i < N_WORDS ==> #[trigger] out.c@[i] == self.c@[i] - other.c@[i],
    {
        let mut out = NcPoly::zero();
        let mut i: usize = 0;
        while i < N_WORDS
            invariant
                i <= N_WORDS,
                forall|q: int|
                    0 <= q < N_WORDS ==> i32::MIN <= #[trigger] self.c@[q] - other.c@[q]
                        <= i32::MAX,
                forall|q: int| 0 <= q < i ==> #[trigger] out.c@[q] == self.c@[q] - other.c@[q],
            decreases N_WORDS - i,
        {
            let v = self.c[i] - other.c[i];
            out.c[i] = v;
            i = i + 1;
        }
        out
    }

    /// Image in the commutative quotient: 15 monomials `a^i b^j`, `i+j <= 4`,
    /// slot `spec_monomial_index(i, j)`. Zero here but not in `self` is
    /// exactly the gap between a commutative and a noncommutative linear
    /// model.
    pub fn commutative_image(&self) -> (out: [i32; N_MONOMIALS])
        requires
            forall|m: nat, upto: nat|
                m < N_MONOMIALS && upto <= N_WORDS ==> i32::MIN <= #[trigger] comm_partial(
                    self.c@,
                    m,
                    upto,
                ) <= i32::MAX,
        ensures
            forall|m: int| 0 <= m < N_MONOMIALS ==> out@[m] == comm_partial(self.c@, m as nat, 31),
    {
        let mut out = [0i32; 15];
        let mut i: usize = 0;
        while i < N_WORDS
            invariant
                i <= N_WORDS,
                forall|m: nat, upto: nat|
                    m < N_MONOMIALS && upto <= N_WORDS ==> i32::MIN <= #[trigger] comm_partial(
                        self.c@,
                        m,
                        upto,
                    ) <= i32::MAX,
                forall|m: int|
                    0 <= m < N_MONOMIALS ==> out@[m] == comm_partial(self.c@, m as nat, i as nat),
            decreases N_WORDS - i,
        {
            let k = self.c[i];
            let (da, db) = word_degrees(i);
            proof {
                assert((da + db) * (da + db + 1) <= 20) by (nonlinear_arith)
                    requires
                        da + db <= 4,
                ;
            }
            let mi = monomial_index(da, db);
            assert(mi < N_MONOMIALS) by {
                assert(da + db <= 4);
                assert(mi == (da + db) * (da + db + 1) / 2 + db);
                assert((da + db) * (da + db + 1) / 2 + db < 15) by (nonlinear_arith)
                    requires
                        da + db <= 4,
                ;
            }
            if k != 0 {
                proof {
                    assert(comm_partial(self.c@, mi as nat, (i + 1) as nat) == comm_partial(
                        self.c@,
                        mi as nat,
                        i as nat,
                    ) + k);
                }
                let v = out[mi] + k;
                out[mi] = v;
            }
            proof {
                assert forall|m: int| 0 <= m < N_MONOMIALS implies out@[m] == comm_partial(
                    self.c@,
                    m as nat,
                    (i + 1) as nat,
                ) by {
                    assert(comm_partial(self.c@, m as nat, (i + 1) as nat) == comm_partial(
                        self.c@,
                        m as nat,
                        i as nat,
                    ) + if spec_monomial_index(
                        spec_word_degrees(i as nat).0,
                        spec_word_degrees(i as nat).1,
                    ) == m as nat {
                        self.c@[i as int] as int
                    } else {
                        0
                    });
                }
            }
            i = i + 1;
        }
        out
    }
}

} // verus!

verus! {

/// Words and their indices correspond one to one: the index of a word
/// gives back its length and letters, and the length and letters of an
/// index give back the index.
pub proof fn lemma_word_index_round_trip(len: nat, bits: nat, index: nat)
    ensures
        len <= MAX_DEG && bits < pow2(len) ==> spec_word_len(spec_word_index(len, bits)) == len && spec_word_bits(
            spec_word_index(len, bits),
        ) == bits,
        index < N_WORDS ==> spec_word_index(spec_word_len(index), spec_word_bits(index)) == index,
{
    lemma_pow2_small();
}

/// The commutative image is linear: the image of a difference is the
/// difference of the images, monomial by monomial.
pub proof fn lemma_commutative_image_of_difference(p: Seq<i32>, q: Seq<i32>, d: Seq<i32>, m: nat, upto: nat)
    requires
        upto <= N_WORDS,
        p.len() == N_WORDS,
        q.len() == N_WORDS,
        d.len() == N_WORDS,
        forall|i: int| 0 <= i < N_WORDS ==> #[trigger] d[i] == p[i] - q[i],
    ensures
        comm_partial(d, m, upto) == comm_partial(p, m, upto) - comm_partial(q, m, upto),
    decreases upto,
{
    if upto > 0 {
        lemma_commutative_image_of_difference(p, q, d, m, (upto - 1) as nat);
    }
}

} // verus!
