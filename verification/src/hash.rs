//! 160-bit identifiers: byte-lexicographic order, numeric value, midpoint.
use vstd::prelude::*;

verus! {

broadcast use vstd::array::group_array_axioms;

/// Identifiers are 20 bytes (160 bits), big-endian.
pub const HASH_LENGTH: usize = 20;

/// Numeric value of a big-endian byte string: the first byte is the most
/// significant.
pub open spec fn hv(s: Seq<u8>) -> nat
    decreases s.len(),
{
    if s.len() == 0 {
        0
    } else {
        hv(s.drop_last()) * 256 + s.last() as nat
    }
}

/// 256^n, the number of byte strings of length n.
pub open spec fn pow256(n: nat) -> nat
    decreases n,
{
    if n == 0 {
        1
    } else {
        256 * pow256((n - 1) as nat)
    }
}

/// One past the largest identifier value: pow256(HASH_LENGTH) = 2^160.
pub open spec fn id_space_end() -> nat {
    pow256(HASH_LENGTH as nat)
}

pub proof fn lemma_pow256_pos(n: nat)
    ensures
        pow256(n) >= 1,
    decreases n,
{
    if n > 0 {
        lemma_pow256_pos((n - 1) as nat);
    }
}

/// A byte string of length n has value below 256^n.
pub proof fn lemma_hv_bound(s: Seq<u8>)
    ensures
        hv(s) < pow256(s.len()),
    decreases s.len(),
{
    if s.len() == 0 {
    } else {
        lemma_hv_bound(s.drop_last());
    }
}

/// Concatenation: the left part carries weight 256^(right length).
pub proof fn lemma_hv_concat(a: Seq<u8>, b: Seq<u8>)
    ensures
        hv(a + b) == hv(a) * pow256(b.len()) + hv(b),
    decreases b.len(),
{
    if b.len() == 0 {
        assert(a + b =~= a);
        assert(pow256(0) == 1);
        assert(hv(a) * 1 == hv(a));
    } else {
        let bd = b.drop_last();
        assert((a + b).drop_last() =~= a + bd);
        assert((a + b).last() == b.last());
        lemma_hv_concat(a, bd);
        let p = pow256(bd.len());
        assert(hv(a + b) == hv(a + bd) * 256 + b.last());
        assert(hv(b) == hv(bd) * 256 + b.last());
        assert(pow256(b.len()) == 256 * p);
        assert((hv(a) * p + hv(bd)) * 256 == (hv(a) * p) * 256 + hv(bd) * 256);
        assert((hv(a) * p) * 256 == hv(a) * (256 * p)) by (nonlinear_arith);
        assert(hv(a + b) == hv(a) * pow256(b.len()) + hv(b));
    }
}

/// Head decomposition: the first byte carries weight 256^(len-1).
pub proof fn lemma_hv_head(s: Seq<u8>)
    requires
        s.len() > 0,
    ensures
        hv(s) == s[0] * pow256((s.len() - 1) as nat) + hv(s.subrange(1, s.len() as int)),
{
    let h = s.subrange(0, 1);
    let t = s.subrange(1, s.len() as int);
    assert(h + t =~= s);
    lemma_hv_concat(h, t);
    assert(h.drop_last() =~= Seq::<u8>::empty());
    assert(hv(Seq::<u8>::empty()) == 0);
    assert(hv(h) == hv(h.drop_last()) * 256 + h.last());
    assert(hv(h) == s[0]);
}

/// Two equal-length byte strings that agree before position k are ordered by
/// their bytes at k.
pub proof fn lemma_hv_cmp_at(a: Seq<u8>, b: Seq<u8>, k: int)
    requires
        a.len() == b.len(),
        0 <= k < a.len(),
        forall|i: int| 0 <= i < k ==> a[i] == b[i],
        a[k] < b[k],
    ensures
        hv(a) < hv(b),
    decreases k,
{
    let n = a.len() as int;
    lemma_hv_head(a);
    lemma_hv_head(b);
    let at = a.subrange(1, n);
    let bt = b.subrange(1, n);
    if k == 0 {
        lemma_hv_bound(at);
        lemma_hv_bound(bt);
        let p = pow256((n - 1) as nat);
        assert(hv(a) < (a[0] + 1) * p) by (nonlinear_arith)
            requires
                hv(a) == a[0] * p + hv(at),
                hv(at) < p,
        ;
        assert((a[0] + 1) * p <= b[0] * p) by (nonlinear_arith)
            requires
                a[0] + 1 <= b[0],
                p >= 0,
        ;
        assert(b[0] * p <= hv(b));
    } else {
        lemma_hv_cmp_at(at, bt, k - 1);
    }
}

/// Equal numeric values mean equal bytes, for equal lengths.
pub proof fn lemma_hv_injective(a: Seq<u8>, b: Seq<u8>)
    requires
        a.len() == b.len(),
        hv(a) == hv(b),
    ensures
        a == b,
    decreases a.len(),
{
    if a.len() == 0 {
        assert(a =~= b);
    } else {
        let ha = hv(a.drop_last());
        let hb = hv(b.drop_last());
        // ha * 256 + a.last() == hb * 256 + b.last() with both remainders below
        // 256 forces the quotients and remainders to agree.
        assert(a.last() < 256 && b.last() < 256);
        assert(hv(a) == ha * 256 + a.last());
        assert(hv(b) == hb * 256 + b.last());
        assert(ha == hb && a.last() == b.last());
        lemma_hv_injective(a.drop_last(), b.drop_last());
        assert(a.drop_last() == b.drop_last());
        assert forall|i: int| 0 <= i < a.len() implies a[i] == b[i] by {
            if i < a.len() - 1 {
                assert(a[i] == a.drop_last()[i]);
                assert(b[i] == b.drop_last()[i]);
            } else {
                assert(a[i] == a.last());
                assert(b[i] == b.last());
            }
        }
        assert(a =~= b);
    }
}

/// A 160-bit node or content identifier.
#[derive(Clone, Copy, PartialEq, Eq, Debug)]
pub struct Hash {
    pub val: [u8; HASH_LENGTH],
}

impl View for Hash {
    type V = Seq<u8>;

    open spec fn view(&self) -> Seq<u8> {
        self.val@
    }
}

impl Hash {
    /// The all-zero identifier.
    pub fn new() -> (r: Hash)
        ensures
            r@.len() == HASH_LENGTH,
            forall|i: int| 0 <= i < HASH_LENGTH ==> r@[i] == 0u8,
            hv(r@) == 0,
    {
        let val: [u8; HASH_LENGTH] = [0; HASH_LENGTH];
        proof {
            lemma_hv_zero(val@);
        }
        Hash { val }
    }

    pub fn wrap(val: [u8; HASH_LENGTH]) -> (r: Hash)
        ensures
            r@ == val@,
    {
        Hash { val }
    }

    /// A uniformly random identifier.
    pub fn random() -> (r: Hash)
        ensures
            r@.len() == HASH_LENGTH,
    {
        let mut val: [u8; HASH_LENGTH] = [0; HASH_LENGTH];
        let mut i: usize = 0;
        while i < HASH_LENGTH
            invariant
                i <= HASH_LENGTH,
            decreases HASH_LENGTH - i,
        {
            let v: u8 = rand::random();
            val[i] = v;
            i += 1;
        }
        Hash { val }
    }

    /// Byte-lexicographic comparison; for equal lengths this is exactly the
    /// order of the numeric values.
    pub fn cmp(&self, other: &Hash) -> (r: core::cmp::Ordering)
        ensures
            r == core::cmp::Ordering::Equal <==> self@ == other@,
            r == core::cmp::Ordering::Less <==> hv(self@) < hv(other@),
            r == core::cmp::Ordering::Greater <==> hv(self@) > hv(other@),
    {
        let mut count: usize = 0;
        while count < HASH_LENGTH && self.val[count] == other.val[count]
            invariant
                count <= HASH_LENGTH,
                forall|i: int| 0 <= i < count ==> self@[i] == other@[i],
            decreases HASH_LENGTH - count,
        {
            count += 1;
        }
        if count >= HASH_LENGTH {
            proof {
                assert(self@ =~= other@);
            }
            core::cmp::Ordering::Equal
        } else if self.val[count] > other.val[count] {
            proof {
                lemma_hv_cmp_at(other@, self@, count as int);
            }
            core::cmp::Ordering::Greater
        } else {
            proof {
                lemma_hv_cmp_at(self@, other@, count as int);
            }
            core::cmp::Ordering::Less
        }
    }

    /// `self` is strictly below `other` in the identifier order.
    pub fn lt(&self, other: &Hash) -> (r: bool)
        ensures
            r == (hv(self@) < hv(other@)),
    {
        matches!(self.cmp(other), core::cmp::Ordering::Less)
    }

    /// `self` is at or below `other` in the identifier order.
    pub fn le(&self, other: &Hash) -> (r: bool)
        ensures
            r == (hv(self@) <= hv(other@)),
    {
        proof {
            if self@ == other@ {
                assert(hv(self@) == hv(other@));
            }
        }
        !matches!(self.cmp(other), core::cmp::Ordering::Greater)
    }

    /// Lowercase hexadecimal rendering of the identifier.
    pub fn to_string(&self) -> (r: String)
        ensures
            r@ == hex_of(self@),
    {
        hex_encode(self.val.as_slice())
    }
}

proof fn lemma_hv_zero(s: Seq<u8>)
    requires
        forall|i: int| 0 <= i < s.len() ==> s[i] == 0u8,
    ensures
        hv(s) == 0,
    decreases s.len(),
{
    if s.len() > 0 {
        lemma_hv_zero(s.drop_last());
    }
}

proof fn lemma_hv_max(s: Seq<u8>)
    requires
        forall|i: int| 0 <= i < s.len() ==> s[i] == 255u8,
    ensures
        hv(s) == pow256(s.len()) - 1,
    decreases s.len(),
{
    if s.len() > 0 {
        lemma_hv_max(s.drop_last());
    }
}

/// An identifier read from a 20-byte slice.
pub fn wrap_bytes(b: &[u8]) -> (r: Hash)
    requires
        b@.len() == HASH_LENGTH,
    ensures
        r@ == b@,
{
    let mut val: [u8; HASH_LENGTH] = [0; HASH_LENGTH];
    let mut i: usize = 0;
    while i < HASH_LENGTH
        invariant
            i <= HASH_LENGTH,
            b@.len() == HASH_LENGTH,
            forall|z: int| 0 <= z < i ==> val@[z] == b@[z],
        decreases HASH_LENGTH - i,
    {
        val[i] = b[i];
        i += 1;
    }
    proof {
        assert(val@ =~= b@);
    }
    Hash { val }
}

/// The smallest identifier, 0x00...00.
pub fn min_hash() -> (r: Hash)
    ensures
        hv(r@) == 0,
{
    Hash::new()
}

/// The largest identifier, 0xff...ff.
pub fn max_hash() -> (r: Hash)
    ensures
        hv(r@) == id_space_end() - 1,
{
    let val: [u8; HASH_LENGTH] = [255; HASH_LENGTH];
    proof {
        lemma_hv_max(val@);
    }
    Hash { val }
}

/// Relies on rand::random: a uniformly random value of the given type.
pub assume_specification<T>[ rand::random::<T> ]() -> (r: T)
    where
        rand::distr::StandardUniform: rand::distr::Distribution<T>,
;

/// 161-bit sum of two identifiers: the 160-bit digits and a carry bit.
fn carry_add(a: &[u8; HASH_LENGTH], b: &[u8; HASH_LENGTH]) -> (r: ([u8; HASH_LENGTH], u8))
    ensures
        r.1 <= 1,
        hv(r.0@) + r.1 * id_space_end() == hv(a@) + hv(b@),
{
    let mut out: [u8; HASH_LENGTH] = [0; HASH_LENGTH];
    let mut carry: u8 = 0;
    let mut i: usize = HASH_LENGTH;
    while i > 0
        invariant
            i <= HASH_LENGTH,
            carry <= 1,
            hv(out@.subrange(i as int, HASH_LENGTH as int)) + carry * pow256((HASH_LENGTH - i) as nat)
                == hv(a@.subrange(i as int, HASH_LENGTH as int))
                    + hv(b@.subrange(i as int, HASH_LENGTH as int)),
        decreases i,
    {
        let ghost prev_out = out@;
        let ghost prev_carry = carry as nat;
        i -= 1;
        let sum: u16 = a[i] as u16 + b[i] as u16 + carry as u16;
        out[i] = (sum % 256) as u8;
        carry = (sum / 256) as u8;
        proof {
            let j = i as int;
            let n = HASH_LENGTH as int;
            let p = pow256((n - 1 - j) as nat);
            lemma_hv_head(a@.subrange(j, n));
            lemma_hv_head(b@.subrange(j, n));
            lemma_hv_head(out@.subrange(j, n));
            assert(a@.subrange(j, n).subrange(1, n - j) =~= a@.subrange(j + 1, n));
            assert(b@.subrange(j, n).subrange(1, n - j) =~= b@.subrange(j + 1, n));
            assert(out@.subrange(j, n).subrange(1, n - j) =~= out@.subrange(j + 1, n));
            assert(out@.subrange(j + 1, n) =~= prev_out.subrange(j + 1, n));
            assert(out@.subrange(j, n)[0] == out@[j]);
            assert(a@.subrange(j, n)[0] == a@[j]);
            assert(b@.subrange(j, n)[0] == b@[j]);
            // sum = a[j] + b[j] + prev_carry, out[j] = sum % 256, carry = sum / 256
            assert(out@[j] + carry * 256 == a@[j] + b@[j] + prev_carry);
            // distribute the weights
            assert(forall|x: nat, q: nat| #[trigger] ((x * (256 * q))) == (x * 256) * q)
                by (nonlinear_arith);
            assert((a@[j] + b@[j] + prev_carry) * p == a@[j] * p + b@[j] * p + prev_carry * p)
                by (nonlinear_arith);
            assert((out@[j] + carry * 256) * p == out@[j] * p + carry * (256 * p))
                by (nonlinear_arith);
            assert((out@[j] + carry * 256) * p == (a@[j] + b@[j] + prev_carry) * p)
                by (nonlinear_arith)
                requires
                    out@[j] + carry * 256 == a@[j] + b@[j] + prev_carry,
                    p >= 0,
            ;
        }
    }
    proof {
        assert(out@.subrange(0, HASH_LENGTH as int) =~= out@);
        assert(a@.subrange(0, HASH_LENGTH as int) =~= a@);
        assert(b@.subrange(0, HASH_LENGTH as int) =~= b@);
    }
    (out, carry)
}

/// Halve a 161-bit value given as a carry bit and 160 bits of digits.
fn shr1(x: &[u8; HASH_LENGTH], top: u8) -> (r: [u8; HASH_LENGTH])
    requires
        top <= 1,
    ensures
        hv(r@) == (top * id_space_end() + hv(x@)) / 2,
{
    let mut out: [u8; HASH_LENGTH] = [0; HASH_LENGTH];
    let mut bit: u16 = top as u16;
    let mut i: usize = 0;
    proof {
        assert(pow256(0) == 1);
        assert(out@.subrange(0, 0).len() == 0);
        assert(x@.subrange(0, 0).len() == 0);
    }
    while i < HASH_LENGTH
        invariant
            i <= HASH_LENGTH,
            bit <= 1,
            2 * hv(out@.subrange(0, i as int)) + bit == top * pow256(i as nat) + hv(
                x@.subrange(0, i as int),
            ),
        decreases HASH_LENGTH - i,
    {
        let ghost prev_out = out@;
        let ghost prev_bit = bit as nat;
        let tmp: u16 = (x[i] as u16) + bit * 256;
        out[i] = (tmp / 2) as u8;
        bit = tmp % 2;
        proof {
            let j = i as int;
            assert(out@.subrange(0, j + 1).drop_last() =~= prev_out.subrange(0, j));
            assert(out@.subrange(0, j + 1).last() == out@[j]);
            assert(x@.subrange(0, j + 1).drop_last() =~= x@.subrange(0, j));
            assert(x@.subrange(0, j + 1).last() == x@[j]);
            // tmp = x[j] + prev_bit * 256, out[j] = tmp / 2, bit = tmp % 2
            assert(2 * out@[j] + bit == x@[j] + prev_bit * 256);
            let w = top * pow256(j as nat) + hv(x@.subrange(0, j));
            assert(top * pow256((j + 1) as nat) == (top * pow256(j as nat)) * 256)
                by (nonlinear_arith)
                requires
                    pow256((j + 1) as nat) == 256 * pow256(j as nat),
            ;
        }
        i += 1;
    }
    proof {
        assert(out@.subrange(0, HASH_LENGTH as int) =~= out@);
        assert(x@.subrange(0, HASH_LENGTH as int) =~= x@);
        // 2 * hv(out) + bit == W and bit <= 1, so hv(out) == W / 2
    }
    out
}

/// The arithmetic mean of two identifiers, rounded toward zero: the 161-bit
/// sum shifted right by one.
pub fn mid(id1: &Hash, id2: &Hash) -> (r: Hash)
    ensures
        hv(r@) == (hv(id1@) + hv(id2@)) / 2,
{
    let (sum, c) = carry_add(&id1.val, &id2.val);
    let val = shr1(&sum, c);
    Hash { val }
}

/// The midpoint of `[hv(from), 2^160)`: `(hv(from) + 2^160) / 2`.
pub fn mid_top(from: &Hash) -> (r: Hash)
    ensures
        hv(r@) == (hv(from@) + id_space_end()) / 2,
{
    let val = shr1(&from.val, 1);
    Hash { val }
}

/// Midpoint law: the midpoint of a value with itself is that value again
/// (byte for byte, since values determine bytes).
pub proof fn lemma_mid_self(a: Seq<u8>, m: Seq<u8>)
    requires
        a.len() == m.len(),
        hv(m) == (hv(a) + hv(a)) / 2,
    ensures
        m == a,
{
    lemma_hv_injective(m, a);
}

/// Midpoint law: for `a <= b` the midpoint lies between them.
pub proof fn lemma_mid_between(a: nat, b: nat)
    requires
        a <= b,
    ensures
        a <= (a + b) / 2 <= b,
{
}

/// Lowercase hexadecimal digit for a value below 16.
pub open spec fn hex_digit(n: u8) -> char {
    if n < 10 {
        (n + 48) as char
    } else {
        (n + 87) as char
    }
}

/// Lowercase hexadecimal rendering: two digits per byte, high nibble first.
pub open spec fn hex_of(s: Seq<u8>) -> Seq<char> {
    Seq::new(
        2 * s.len(),
        |i: int|
            if i % 2 == 0 {
                hex_digit(s[i / 2] / 16)
            } else {
                hex_digit(s[i / 2] % 16)
            },
    )
}

/// Relies on hex::encode: two lowercase hexadecimal digits per input byte,
/// high nibble first.
#[verifier::external_body]
fn hex_encode(b: &[u8]) -> (r: String)
    ensures
        r@ == hex_of(b@),
{
    hex::encode(b)
}

} // verus!
