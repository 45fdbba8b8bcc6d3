//! SHA-256 digests and the XOR metric over 32-byte identifiers.
use sha2::Digest;
use vstd::prelude::*;
use vstd::std_specs::bits::u8_leading_zeros;

verus! {

/// Length in bytes of every digest and node identifier.
pub const ID_LEN: usize = 32;

/// The SHA-256 digest of a byte string.
pub uninterp spec fn sha256_of(data: Seq<u8>) -> Seq<u8>;

/// Relies on sha2::Sha256::digest: the SHA-256 of `data`, which is 32 bytes long.
#[verifier::external_body]
pub(crate) fn sha256(data: &[u8]) -> (r: [u8; 32])
    ensures
        r@ == sha256_of(data@),
{
    sha2::Sha256::digest(data).into()
}

/// 256 to the power `n`.
pub open spec fn pow256(n: nat) -> nat
    decreases n,
{
    if n == 0 {
        1
    } else {
        256 * pow256((n - 1) as nat)
    }
}

/// A byte string read as a big-endian unsigned integer.
pub open spec fn be_value(s: Seq<u8>) -> nat
    decreases s.len(),
{
    if s.len() == 0 {
        0
    } else {
        s[0] as nat * pow256((s.len() - 1) as nat) + be_value(s.subrange(1, s.len() as int))
    }
}

/// Bytewise XOR of two byte strings of the same length.
pub open spec fn xor_seq(a: Seq<u8>, b: Seq<u8>) -> Seq<u8> {
    Seq::new(a.len(), |i: int| a[i] ^ b[i])
}

/// The XOR distance between two identifiers, as a 256-bit number.
pub open spec fn distance(a: [u8; 32], b: [u8; 32]) -> nat {
    be_value(xor_seq(a@, b@))
}

/// Number of leading zero bits of a big-endian byte string.
pub open spec fn leading_zero_bits(s: Seq<u8>) -> nat
    decreases s.len(),
{
    if s.len() == 0 {
        0
    } else if s[0] == 0 {
        8 + leading_zero_bits(s.subrange(1, s.len() as int))
    } else {
        u8_leading_zeros(s[0]) as nat
    }
}

/// Whether every byte of `s` is zero.
pub open spec fn all_zero(s: Seq<u8>) -> bool {
    forall|i: int| 0 <= i < s.len() ==> s[i] == 0
}

/// A big-endian value of `n` bytes is below 256^n.
pub proof fn lemma_be_value_bound(s: Seq<u8>)
    ensures
        be_value(s) < pow256(s.len()),
    decreases s.len(),
{
    if s.len() > 0 {
        let rest = s.subrange(1, s.len() as int);
        lemma_be_value_bound(rest);
        let p = pow256((s.len() - 1) as nat);
        let r = be_value(rest);
        let d = s[0] as nat;
        assert(d * p + r < 256 * p) by (nonlinear_arith)
            requires
                d <= 255,
                r < p,
        ;
    }
}

/// Two byte strings of one length, equal before index `i` and with `a[i] < b[i]`, are
/// ordered the same way as big-endian numbers.
pub proof fn lemma_be_value_lt(a: Seq<u8>, b: Seq<u8>, i: int)
    requires
        a.len() == b.len(),
        0 <= i < a.len(),
        forall|j: int| 0 <= j < i ==> a[j] == b[j],
        a[i] < b[i],
    ensures
        be_value(a) < be_value(b),
    decreases i,
{
    let n = a.len();
    let ra = a.subrange(1, n as int);
    let rb = b.subrange(1, n as int);
    let p = pow256((n - 1) as nat);
    if i == 0 {
        lemma_be_value_bound(ra);
        let x = a[0] as nat;
        let y = b[0] as nat;
        let u = be_value(ra);
        let v = be_value(rb);
        assert(x * p + u < y * p + v) by (nonlinear_arith)
            requires
                x < y,
                u < p,
        ;
    } else {
        assert forall|j: int| 0 <= j < i - 1 implies ra[j] == rb[j] by {
            assert(a[j + 1] == b[j + 1]);
        }
        lemma_be_value_lt(ra, rb, i - 1);
        assert(a[0] == b[0]);
    }
}

/// The big-endian value determines a byte string of a given length.
pub proof fn lemma_be_value_injective(a: Seq<u8>, b: Seq<u8>)
    requires
        a.len() == b.len(),
        be_value(a) == be_value(b),
    ensures
        a == b,
{
    if a != b {
        assert(exists|k: int| 0 <= k < a.len() && a[k] != b[k]) by {
            if forall|k: int| 0 <= k < a.len() ==> a[k] == b[k] {
                assert(a =~= b);
            }
        }
        let k = choose|k: int| 0 <= k < a.len() && a[k] != b[k];
        let i = first_difference(a, b, k);
        if a[i] < b[i] {
            lemma_be_value_lt(a, b, i);
        } else {
            lemma_be_value_lt(b, a, i);
        }
    }
}

/// The first index at which two byte strings differ, given one such index `k`.
proof fn first_difference(a: Seq<u8>, b: Seq<u8>, k: int) -> (i: int)
    requires
        a.len() == b.len(),
        0 <= k < a.len(),
        a[k] != b[k],
    ensures
        0 <= i <= k,
        a[i] != b[i],
        forall|j: int| 0 <= j < i ==> a[j] == b[j],
    decreases k,
{
    if exists|j: int| 0 <= j < k && a[j] != b[j] {
        let j = choose|j: int| 0 <= j < k && a[j] != b[j];
        first_difference(a, b, j)
    } else {
        k
    }
}

/// Distinct identifiers are at distinct distances from any target.
pub proof fn lemma_distance_injective(a: [u8; 32], b: [u8; 32], t: [u8; 32])
    requires
        distance(a, t) == distance(b, t),
    ensures
        a == b,
{
    let xa = xor_seq(a@, t@);
    let xb = xor_seq(b@, t@);
    lemma_be_value_injective(xa, xb);
    assert forall|i: int| 0 <= i < 32 implies a@[i] == b@[i] by {
        let p = a@[i];
        let q = b@[i];
        let s = t@[i];
        assert(xa[i] == xb[i]);
        assert((p ^ s) == (q ^ s) ==> p == q) by (bit_vector);
    }
    assert(a@ =~= b@);
}

/// The distance from an identifier to itself is zero, and only there.
pub proof fn lemma_distance_zero(a: [u8; 32], b: [u8; 32])
    ensures
        distance(a, b) == 0 <==> a == b,
{
    let x = xor_seq(b@, b@);
    let z = Seq::new(32, |i: int| 0u8);
    lemma_be_value_zero(z);
    assert forall|i: int| 0 <= i < 32 implies x[i] == 0 by {
        let p = b@[i];
        assert(p ^ p == 0) by (bit_vector);
    }
    assert(x =~= z);
    assert(distance(b, b) == 0);
    if distance(a, b) == 0 {
        lemma_distance_injective(a, b, b);
    }
}

/// A byte string of zeros has the value zero.
pub proof fn lemma_be_value_zero(s: Seq<u8>)
    requires
        all_zero(s),
    ensures
        be_value(s) == 0,
    decreases s.len(),
{
    if s.len() > 0 {
        let rest = s.subrange(1, s.len() as int);
        assert(all_zero(rest));
        lemma_be_value_zero(rest);
    }
}

/// A byte string with a non-zero byte has fewer leading zero bits than it has bits.
pub proof fn lemma_leading_zero_bits_bound(s: Seq<u8>)
    ensures
        leading_zero_bits(s) <= 8 * s.len(),
        !all_zero(s) ==> leading_zero_bits(s) < 8 * s.len(),
        all_zero(s) ==> leading_zero_bits(s) == 8 * s.len(),
    decreases s.len(),
{
    if s.len() > 0 {
        if all_zero(s) {
            assert(all_zero(s.subrange(1, s.len() as int)));
        }
        let rest = s.subrange(1, s.len() as int);
        lemma_leading_zero_bits_bound(rest);
        vstd::std_specs::bits::axiom_u8_leading_zeros(s[0]);
        if s[0] == 0 && !all_zero(s) {
            let k = choose|k: int| 0 <= k < s.len() && s[k] != 0;
            assert(rest[k - 1] != 0);
        }
    }
}

/// Bytewise XOR of two identifiers, the big-endian form of their distance.
pub fn xor_distance(id1: &[u8; 32], id2: &[u8; 32]) -> (r: [u8; 32])
    ensures
        r@ == xor_seq(id1@, id2@),
        be_value(r@) == distance(*id1, *id2),
{
    let mut result = [0u8; 32];
    let mut i: usize = 0;
    while i < ID_LEN
        invariant
            0 <= i <= 32,
            forall|j: int| 0 <= j < i ==> result@[j] == id1@[j] ^ id2@[j],
        decreases 32 - i,
    {
        result[i] = id1[i] ^ id2[i];
        i = i + 1;
    }
    assert(result@ =~= xor_seq(id1@, id2@));
    result
}

/// Whether `a` is below `b` as big-endian numbers.
pub fn be_less(a: &[u8; 32], b: &[u8; 32]) -> (r: bool)
    ensures
        r == (be_value(a@) < be_value(b@)),
{
    let mut i: usize = 0;
    while i < ID_LEN
        invariant
            0 <= i <= 32,
            forall|j: int| 0 <= j < i ==> a@[j] == b@[j],
        decreases 32 - i,
    {
        if a[i] < b[i] {
            proof {
                lemma_be_value_lt(a@, b@, i as int);
            }
            return true;
        }
        if a[i] > b[i] {
            proof {
                lemma_be_value_lt(b@, a@, i as int);
            }
            return false;
        }
        i = i + 1;
    }
    assert(a@ =~= b@);
    false
}

/// Whether `a` is strictly closer to `target` than `b` in the XOR metric.
pub fn closer_to(a: &[u8; 32], b: &[u8; 32], target: &[u8; 32]) -> (r: bool)
    ensures
        r == (distance(*a, *target) < distance(*b, *target)),
{
    let da = xor_distance(a, target);
    let db = xor_distance(b, target);
    be_less(&da, &db)
}

/// Number of leading zero bits of an identifier.
pub fn leading_zeroes(id: &[u8; 32]) -> (r: usize)
    ensures
        r == leading_zero_bits(id@),
        r <= 256,
        !all_zero(id@) ==> r < 256,
{
    proof {
        lemma_leading_zero_bits_bound(id@);
    }
    assert(id@.subrange(0, 32) =~= id@);
    let mut bit_count: usize = 0;
    let mut i: usize = 0;
    while i < ID_LEN
        invariant
            0 <= i <= 32,
            bit_count == 8 * i,
            forall|j: int| 0 <= j < i ==> id@[j] == 0,
            leading_zero_bits(id@) == bit_count + leading_zero_bits(id@.subrange(i as int, 32)),
        decreases 32 - i,
    {
        let byte = id[i];
        proof {
            let rest = id@.subrange(i as int, 32);
            assert(rest.subrange(1, rest.len() as int) =~= id@.subrange(i + 1, 32));
        }
        if byte != 0 {
            return bit_count + byte.leading_zeros() as usize;
        }
        bit_count = bit_count + 8;
        i = i + 1;
    }
    bit_count
}

/// Whether two identifiers are equal.
pub fn same_id(a: &[u8; 32], b: &[u8; 32]) -> (r: bool)
    ensures
        r == (*a == *b),
{
    let mut i: usize = 0;
    while i < ID_LEN
        invariant
            0 <= i <= 32,
            forall|j: int| 0 <= j < i ==> a@[j] == b@[j],
        decreases 32 - i,
    {
        if a[i] != b[i] {
            return false;
        }
        i = i + 1;
    }
    assert(*a =~= *b);
    true
}

/// Whether two byte strings are equal.
pub fn bytes_equal(a: &[u8], b: &[u8]) -> (r: bool)
    ensures
        r == (a@ == b@),
{
    if a.len() != b.len() {
        return false;
    }
    let mut i: usize = 0;
    while i < a.len()
        invariant
            a@.len() == b@.len(),
            0 <= i <= a@.len(),
            forall|j: int| 0 <= j < i ==> a@[j] == b@[j],
        decreases a@.len() - i,
    {
        if a[i] != b[i] {
            return false;
        }
        i = i + 1;
    }
    assert(a@ =~= b@);
    true
}

} // verus!
