//! Law signatures: for a magma `M`, the bit vector recording which laws of
//! a fixed list `M` satisfies. Bit `i` stands for the law with 1-based id
//! `i + 1`. Bits are packed little-endian into 64-bit words, so that set
//! algebra across signatures is word-parallel.

use vstd::prelude::*;

verus! {

/// Bit `j` (counted from the least significant end) of a word.
pub open spec fn word_bit(w: u64, j: int) -> bool {
    (w >> (j as u64)) & 1u64 == 1u64
}

/// Bit `j` of a byte.
pub open spec fn byte_bit(b: u8, j: int) -> bool {
    (b >> (j as u8)) & 1u8 == 1u8
}

/// Number of words needed for `n` bits.
pub open spec fn words_for(n: nat) -> nat {
    (n + 63) / 64
}

/// Number of bytes needed for `n` bits.
pub open spec fn bytes_for(n: nat) -> nat {
    (n + 7) / 8
}

/// How many entries of `s` are `true`.
pub open spec fn count_true(s: Seq<bool>) -> nat
    decreases s.len(),
{
    if s.len() == 0 {
        0
    } else {
        count_true(s.drop_last()) + if s.last() {
            1nat
        } else {
            0nat
        }
    }
}

/// The bits that a packed word vector holds, for `n` of them.
pub open spec fn unpack_words(words: Seq<u64>, n: nat) -> Seq<bool> {
    Seq::new(n, |i: int| word_bit(words[i / 64], i % 64))
}

/// The bits that a packed byte vector holds, for `n` of them.
pub open spec fn unpack_bytes(bytes: Seq<u8>, n: nat) -> Seq<bool> {
    Seq::new(n, |i: int| byte_bit(bytes[i / 8], i % 8))
}

pub proof fn lemma_word_bit_zero(j: u64)
    requires
        j < 64,
    ensures
        !word_bit(0u64, j as int),
{
    assert((0u64 >> j) & 1u64 == 0u64) by (bit_vector);
}

pub proof fn lemma_word_bit_or_one(w: u64, b: u64, j: u64)
    requires
        b < 64,
        j < 64,
    ensures
        word_bit(w | (1u64 << b), j as int) == (j == b || word_bit(w, j as int)),
{
    assert(((w | (1u64 << b)) >> j) & 1u64 == 1u64 <==> (j == b || (w >> j) & 1u64 == 1u64))
        by (bit_vector)
        requires
            b < 64,
            j < 64,
    ;
}

pub proof fn lemma_byte_bit_zero(j: u8)
    requires
        j < 8,
    ensures
        !byte_bit(0u8, j as int),
{
    assert((0u8 >> j) & 1u8 == 0u8) by (bit_vector);
}

pub proof fn lemma_byte_bit_or_one(w: u8, b: u8, j: u8)
    requires
        b < 8,
        j < 8,
    ensures
        byte_bit(w | (1u8 << b), j as int) == (j == b || byte_bit(w, j as int)),
{
    assert(((w | (1u8 << b)) >> j) & 1u8 == 1u8 <==> (j == b || (w >> j) & 1u8 == 1u8))
        by (bit_vector)
        requires
            b < 8,
            j < 8,
    ;
}

pub proof fn lemma_count_true_push(s: Seq<bool>, b: bool)
    ensures
        count_true(s.push(b)) == count_true(s) + if b {
            1nat
        } else {
            0nat
        },
{
    assert(s.push(b).drop_last() =~= s);
}

pub proof fn lemma_count_true_bound(s: Seq<bool>)
    ensures
        count_true(s) <= s.len(),
    decreases s.len(),
{
    if s.len() > 0 {
        lemma_count_true_bound(s.drop_last());
    }
}

pub proof fn lemma_count_true_all(s: Seq<bool>)
    requires
        forall|i: int| 0 <= i < s.len() ==> s[i],
    ensures
        count_true(s) == s.len(),
    decreases s.len(),
{
    if s.len() > 0 {
        lemma_count_true_all(s.drop_last());
    }
}

pub proof fn lemma_count_true_all_false(s: Seq<bool>)
    requires
        forall|i: int| 0 <= i < s.len() ==> !s[i],
    ensures
        count_true(s) == 0,
    decreases s.len(),
{
    if s.len() > 0 {
        lemma_count_true_all_false(s.drop_last());
    }
}

pub proof fn lemma_count_true_zero(s: Seq<bool>, i: int)
    requires
        count_true(s) == 0,
        0 <= i < s.len(),
    ensures
        !s[i],
    decreases s.len(),
{
    if i < s.len() - 1 {
        lemma_count_true_zero(s.drop_last(), i);
    }
}

pub proof fn lemma_count_true_clear(s: Seq<bool>, i: int)
    requires
        0 <= i < s.len(),
        s[i],
    ensures
        count_true(s.update(i, false)) + 1 == count_true(s),
    decreases s.len(),
{
    if i == s.len() - 1 {
        assert(s.update(i, false).drop_last() =~= s.drop_last());
    } else {
        assert(s.update(i, false).drop_last() =~= s.drop_last().update(i, false));
        lemma_count_true_clear(s.drop_last(), i);
    }
}

/// A signature over `n` laws.
#[derive(PartialEq, Eq, Debug)]
pub struct Signature {
    n: usize,
    words: Vec<u64>,
}

impl Signature {
    /// The packing is exact: one word per 64 bits, and no bit set past `n`.
    #[verifier::type_invariant]
    spec fn inv(self) -> bool {
        &&& self.words@.len() == words_for(self.n as nat)
        &&& forall|i: int|
            self.n <= i < self.words@.len() * 64 ==> !#[trigger] word_bit(
                self.words@[i / 64],
                i % 64,
            )
    }

    /// The bits, one per law.
    pub closed spec fn view(&self) -> Seq<bool> {
        unpack_words(self.words@, self.n as nat)
    }

    /// The packed words.
    pub closed spec fn spec_words(&self) -> Seq<u64> {
        self.words@
    }

    /// All bits clear.
    pub fn zeros(n: usize) -> (s: Signature)
        ensures
            s@ == Seq::new(n as nat, |i: int| false),
    {
        let nw = n / 64 + if n % 64 != 0 {
            1
        } else {
            0
        };
        let mut words: Vec<u64> = Vec::with_capacity(nw);
        let mut k: usize = 0;
        while k < nw
            invariant
                nw == words_for(n as nat),
                k <= nw,
                words@.len() == k,
                forall|q: int| 0 <= q < k ==> words@[q] == 0u64,
            decreases nw - k,
        {
            words.push(0u64);
            k = k + 1;
        }
        proof {
            assert forall|i: int| 0 <= i < words@.len() * 64 implies !#[trigger] word_bit(
                words@[i / 64],
                i % 64,
            ) by {
                lemma_word_bit_zero((i % 64) as u64);
            }
        }
        let s = Signature { n, words };
        assert(s@ =~= Seq::new(n as nat, |i: int| false));
        s
    }

    /// Number of laws the signature ranges over.
    pub fn len(&self) -> (r: usize)
        ensures
            r == self@.len(),
    {
        self.n
    }

    /// Does the magma satisfy the law at 0-based index `i`?
    pub fn get(&self, i: usize) -> (b: bool)
        requires
            i < self@.len(),
        ensures
            b == self@[i as int],
    {
        proof {
            use_type_invariant(self);
        }
        (self.words[i / 64] >> ((i % 64) as u64)) & 1u64 == 1u64
    }

    /// Record that the law at 0-based index `i` holds.
    pub fn set(&mut self, i: usize)
        requires
            i < old(self)@.len(),
        ensures
            final(self)@ == old(self)@.update(i as int, true),
    {
        proof {
            use_type_invariant(&*self);
        }
        let w = i / 64;
        let b = (i % 64) as u64;
        let ghost old_words = self.words@;
        let nw = self.words[w] | (1u64 << b);
        proof {
            assert forall|j: int| 0 <= j < old_words.len() * 64 implies #[trigger] word_bit(
                old_words.update(w as int, nw)[j / 64],
                j % 64,
            ) == (j == i || word_bit(old_words[j / 64], j % 64)) by {
                if j / 64 == w as int {
                    lemma_word_bit_or_one(old_words[w as int], b, (j % 64) as u64);
                }
            }
        }
        let mut tmp = Signature { n: 0, words: Vec::new() };
        std::mem::swap(self, &mut tmp);
        let Signature { n, mut words } = tmp;
        words.set(w, nw);
        *self = Signature { n, words };
        assert(self@ =~= old(self)@.update(i as int, true));
    }

    /// Number of laws satisfied.
    pub fn count(&self) -> (c: u64)
        ensures
            c == count_true(self@),
    {
        let mut c: u64 = 0;
        let mut i: usize = 0;
        proof {
            assert(self@.take(0) =~= Seq::<bool>::empty());
        }
        while i < self.n
            invariant
                i <= self@.len(),
                self@.len() == self.n,
                c == count_true(self@.take(i as int)),
            decreases self.n - i,
        {
            proof {
                assert(self@.take(i + 1) =~= self@.take(i as int).push(self@[i as int]));
                lemma_count_true_push(self@.take(i as int), self@[i as int]);
                lemma_count_true_bound(self@.take(i as int));
            }
            if self.get(i) {
                c = c + 1;
            }
            i = i + 1;
        }
        assert(self@.take(i as int) =~= self@);
        c
    }

    /// Number of ordered pairs `(i, j)` with law `i` satisfied and law `j`
    /// refuted: the anti-implications this one magma witnesses.
    pub fn separations(&self) -> (r: u64)
        requires
            self@.len() <= u32::MAX,
        ensures
            r == count_true(self@) * (self@.len() - count_true(self@)),
    {
        let c = self.count();
        proof {
            lemma_count_true_bound(self@);
            assert(c * (self.n - c) <= (u32::MAX as int) * (u32::MAX as int)) by (nonlinear_arith)
                requires
                    c <= self.n,
                    self.n <= u32::MAX,
            ;
        }
        c * (self.n as u64 - c)
    }

    /// Indices of the satisfied laws, ascending.
    pub fn iter_set(&self) -> (r: Vec<usize>)
        ensures
            forall|k: int| 0 <= k < r@.len() ==> r@[k] < self@.len() && self@[r@[k] as int],
            forall|k1: int, k2: int| 0 <= k1 < k2 < r@.len() ==> r@[k1] < r@[k2],
            forall|i: int| 0 <= i < self@.len() && self@[i] ==> r@.contains(i as usize),
            r@.len() == count_true(self@),
    {
        let mut r: Vec<usize> = Vec::new();
        let mut i: usize = 0;
        proof {
            assert(self@.take(0) =~= Seq::<bool>::empty());
        }
        while i < self.n
            invariant
                i <= self@.len(),
                self@.len() == self.n,
                forall|k: int| 0 <= k < r@.len() ==> r@[k] < i && self@[r@[k] as int],
                forall|k1: int, k2: int| 0 <= k1 < k2 < r@.len() ==> r@[k1] < r@[k2],
                forall|j: int| 0 <= j < i && self@[j] ==> r@.contains(j as usize),
                r@.len() == count_true(self@.take(i as int)),
            decreases self.n - i,
        {
            proof {
                assert(self@.take(i + 1) =~= self@.take(i as int).push(self@[i as int]));
                lemma_count_true_push(self@.take(i as int), self@[i as int]);
            }
            let ghost r0 = r@;
            if self.get(i) {
                r.push(i);
            }
            proof {
                assert forall|j: int| 0 <= j < i + 1 && self@[j] implies r@.contains(
                    j as usize,
                ) by {
                    if j < i {
                        let k = choose|k: int| 0 <= k < r0.len() && r0[k] == j as usize;
                        assert(r@[k] == j as usize);
                    } else {
                        assert(r@[r@.len() - 1] == i);
                    }
                }
            }
            i = i + 1;
        }
        assert(self@.take(i as int) =~= self@);
        r
    }

    /// Is any law satisfied and any law refuted? A magma satisfying nothing,
    /// or everything, separates nothing.
    pub fn is_separating(&self) -> (b: bool)
        ensures
            b == ((exists|i: int| 0 <= i < self@.len() && self@[i]) && (exists|j: int|
                0 <= j < self@.len() && !self@[j])),
    {
        let mut any_set = false;
        let mut any_clear = false;
        let mut i: usize = 0;
        while i < self.n
            invariant
                i <= self@.len(),
                self@.len() == self.n,
                any_set == exists|k: int| 0 <= k < i && self@[k],
                any_clear == exists|k: int| 0 <= k < i && !self@[k],
            decreases self.n - i,
        {
            if self.get(i) {
                any_set = true;
            } else {
                any_clear = true;
            }
            i = i + 1;
        }
        any_set && any_clear
    }

    /// The packed words: bit `j` of word `k` is law `64 k + j`, and bits past
    /// the last law are clear.
    pub fn words(&self) -> (w: &[u64])
        ensures
            w@ == self.spec_words(),
            w@.len() == words_for(self@.len()),
            forall|i: int|
                0 <= i < w@.len() * 64 ==> #[trigger] word_bit(w@[i / 64], i % 64) == (i
                    < self@.len() && self@[i]),
    {
        proof {
            use_type_invariant(self);
        }
        self.words.as_slice()
    }

    /// Unpack `n` bits from bytes, least significant bit first, as a row of
    /// a packed bit matrix is stored. Bits past `n` in the last byte are
    /// ignored.
    pub fn from_bytes(n: usize, bytes: &[u8]) -> (s: Signature)
        requires
            bytes@.len() >= bytes_for(n as nat),
        ensures
            s@ == unpack_bytes(bytes@, n as nat),
    {
        let mut s = Signature::zeros(n);
        let mut i: usize = 0;
        while i < n
            invariant
                i <= n,
                bytes@.len() >= bytes_for(n as nat),
                s@.len() == n,
                forall|j: int| 0 <= j < i ==> s@[j] == byte_bit(bytes@[j / 8], j % 8),
                forall|j: int| i <= j < n ==> !s@[j],
            decreases n - i,
        {
            if (bytes[i / 8] >> ((i % 8) as u8)) & 1u8 == 1u8 {
                s.set(i);
            }
            i = i + 1;
        }
        assert(s@ =~= unpack_bytes(bytes@, n as nat));
        s
    }

    /// Pack into bytes, least significant bit first; the inverse of
    /// `from_bytes`.
    pub fn to_bytes(&self) -> (out: Vec<u8>)
        ensures
            out@.len() == bytes_for(self@.len()),
            unpack_bytes(out@, self@.len()) == self@,
            forall|i: int|
                self@.len() <= i < out@.len() * 8 ==> !#[trigger] byte_bit(out@[i / 8], i % 8),
    {
        proof {
            use_type_invariant(self);
        }
        let nb = self.n / 8 + if self.n % 8 == 0 {
            0
        } else {
            1
        };
        let mut out: Vec<u8> = Vec::with_capacity(nb);
        let mut k: usize = 0;
        while k < nb
            invariant
                nb == bytes_for(self@.len()),
                k <= nb,
                out@.len() == k,
                forall|q: int| 0 <= q < k ==> out@[q] == 0u8,
            decreases nb - k,
        {
            out.push(0u8);
            k = k + 1;
        }
        proof {
            assert forall|j: int| 0 <= j < out@.len() * 8 implies !#[trigger] byte_bit(
                out@[j / 8],
                j % 8,
            ) by {
                lemma_byte_bit_zero((j % 8) as u8);
            }
        }
        let mut i: usize = 0;
        while i < self.n
            invariant
                i <= self@.len(),
                self@.len() == self.n,
                out@.len() == bytes_for(self@.len()),
                forall|j: int|
                    0 <= j < out@.len() * 8 ==> #[trigger] byte_bit(out@[j / 8], j % 8) == (j
                        < i && self@[j]),
            decreases self.n - i,
        {
            if self.get(i) {
                let q = i / 8;
                let b = (i % 8) as u8;
                let ghost before = out@;
                let nv = out[q] | (1u8 << b);
                out.set(q, nv);
                proof {
                    assert forall|j: int| 0 <= j < out@.len() * 8 implies #[trigger] byte_bit(
                        out@[j / 8],
                        j % 8,
                    ) == (j < i + 1 && self@[j]) by {
                        if j / 8 == q as int {
                            lemma_byte_bit_or_one(before[q as int], b, (j % 8) as u8);
                        }
                    }
                }
            }
            i = i + 1;
        }
        assert(unpack_bytes(out@, self@.len()) =~= self@);
        out
    }
}

impl Clone for Signature {
    fn clone(&self) -> (s: Self)
        ensures
            s@ == self@,
    {
        proof {
            use_type_invariant(self);
        }
        Signature { n: self.n, words: self.words.clone() }
    }
}

} // verus!
