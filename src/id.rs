//! Node identifiers and the XOR metric between them.
use vstd::prelude::*;
use crate::config::N_BITS;

verus! {

/// Bitwise XOR of two byte strings, over the length of the shorter one.
pub open spec fn xor_seq(a: Seq<u8>, b: Seq<u8>) -> Seq<u8> {
    let n = if a.len() <= b.len() { a.len() } else { b.len() };
    Seq::new(n, |i: int| a[i] ^ b[i])
}

/// Number of zero bits before the first one bit, reading the bytes in order,
/// each from its most significant bit.
pub open spec fn leading_zero_bits(s: Seq<u8>) -> nat
    decreases s.len(),
{
    if s.len() == 0 {
        0
    } else if s[0] == 0 {
        8 + leading_zero_bits(s.drop_first())
    } else {
        s[0].leading_zeros() as nat
    }
}

/// 256 to the power `n`.
pub open spec fn pow256(n: nat) -> nat
    decreases n,
{
    if n == 0 {
        1
    } else {
        256 * pow256((n - 1) as nat)
    }
}

/// The unsigned integer that a byte string spells in big-endian order.
pub open spec fn be_value(s: Seq<u8>) -> nat
    decreases s.len(),
{
    if s.len() == 0 {
        0
    } else {
        s[0] as nat * pow256((s.len() - 1) as nat) + be_value(s.drop_first())
    }
}

/// XOR distance: the XOR of two identifiers read as a big-endian unsigned integer.
pub open spec fn distance(a: Seq<u8>, b: Seq<u8>) -> nat {
    be_value(xor_seq(a, b))
}

/// The bucket that holds `id` in the table of the node `own`.
pub open spec fn bucket_index_of(id: Seq<u8>, own: Seq<u8>) -> nat {
    leading_zero_bits(xor_seq(id, own)) % (N_BITS as nat)
}

/// Powers of 256 are positive.
pub proof fn lemma_pow256_positive(n: nat)
    ensures
        pow256(n) >= 1,
    decreases n,
{
    if n > 0 {
        lemma_pow256_positive((n - 1) as nat);
    }
}

proof fn lemma_be_value_bound(s: Seq<u8>)
    ensures
        be_value(s) < pow256(s.len()),
    decreases s.len(),
{
    if s.len() > 0 {
        let p = pow256((s.len() - 1) as nat);
        lemma_be_value_bound(s.drop_first());
        assert(s[0] as nat * p + p <= 256 * p) by (nonlinear_arith)
            requires
                s[0] <= 255,
        ;
    }
}

/// XOR distances over `n` bytes are below 256 to the power `n`. A lookup
/// round that does not end the lookup lowers the best distance (see
/// `Lookup::finish_round`), so a lookup over `n`-byte identifiers ends
/// within 256^n + 1 rounds.
pub proof fn lemma_distance_bounded(a: Seq<u8>, b: Seq<u8>)
    ensures
        distance(a, b) < pow256(xor_seq(a, b).len()),
{
    lemma_be_value_bound(xor_seq(a, b));
}

/// Equal-length byte strings that agree before `i` and differ at `i` compare
/// as big-endian integers as their bytes at `i` do.
proof fn lemma_be_value_first_difference(s: Seq<u8>, t: Seq<u8>, i: int)
    requires
        s.len() == t.len(),
        0 <= i < s.len(),
        s.subrange(0, i) == t.subrange(0, i),
        s[i] < t[i],
    ensures
        be_value(s) < be_value(t),
    decreases i,
{
    let n = s.len();
    let p = pow256((n - 1) as nat);
    if i == 0 {
        lemma_be_value_bound(s.drop_first());
        assert(s[0] as nat * p + p <= t[0] as nat * p) by (nonlinear_arith)
            requires
                s[0] < t[0],
        ;
    } else {
        assert(s[0] == s.subrange(0, i)[0]);
        assert(t[0] == t.subrange(0, i)[0]);
        assert(s.drop_first().subrange(0, i - 1) == t.drop_first().subrange(0, i - 1)) by {
            assert forall|j: int| 0 <= j < i - 1 implies s.drop_first()[j] == t.drop_first()[j] by {
                assert(s[j + 1] == s.subrange(0, i)[j + 1]);
                assert(t[j + 1] == t.subrange(0, i)[j + 1]);
            }
            assert(s.drop_first().subrange(0, i - 1) =~= t.drop_first().subrange(0, i - 1));
        }
        lemma_be_value_first_difference(s.drop_first(), t.drop_first(), i - 1);
    }
}

/// Byte-wise XOR of two byte strings, over the length of the shorter one.
pub fn xor_bytes(a: &[u8], b: &[u8]) -> (r: Vec<u8>)
    ensures
        r@ == xor_seq(a@, b@),
{
    let n: usize = if a.len() <= b.len() { a.len() } else { b.len() };
    let mut r: Vec<u8> = Vec::with_capacity(n);
    let mut i: usize = 0;
    while i < n
        invariant
            n <= a.len(),
            n <= b.len(),
            n == xor_seq(a@, b@).len(),
            i <= n,
            r@ == xor_seq(a@, b@).subrange(0, i as int),
        decreases n - i,
    {
        r.push(a[i] ^ b[i]);
        i = i + 1;
        assert(r@ =~= xor_seq(a@, b@).subrange(0, i as int));
    }
    assert(r@ =~= xor_seq(a@, b@));
    r
}

/// Counts the zero bits before the first one bit of `s`.
pub fn count_leading_zero_bits(s: &[u8]) -> (r: usize)
    requires
        s@.len() <= usize::MAX / 8,
    ensures
        r == leading_zero_bits(s@),
{
    let mut i: usize = 0;
    assert(s@.subrange(0, s@.len() as int) =~= s@);
    while i < s.len()
        invariant
            i <= s.len(),
            s@.len() <= usize::MAX / 8,
            forall|j: int| 0 <= j < i ==> s@[j] == 0,
            leading_zero_bits(s@) == 8 * i + leading_zero_bits(s@.subrange(i as int, s@.len() as int)),
        decreases s.len() - i,
    {
        if s[i] != 0 {
            assert(s@.subrange(i as int, s@.len() as int)[0] == s@[i as int]);
            return 8 * i + s[i].leading_zeros() as usize;
        }
        let ghost rest = s@.subrange(i as int, s@.len() as int);
        assert(rest[0] == 0);
        assert(rest.drop_first() =~= s@.subrange(i + 1, s@.len() as int));
        i = i + 1;
    }
    assert(s@.subrange(i as int, s@.len() as int).len() == 0);
    8 * i
}

/// The bucket that holds `id` in the table of the node `own`.
pub fn bucket_index(id: &[u8], own: &[u8]) -> (r: usize)
    requires
        id@.len() <= usize::MAX / 8,
    ensures
        r == bucket_index_of(id@, own@),
        r < N_BITS,
{
    let x = xor_bytes(id, own);
    let z = count_leading_zero_bits(x.as_slice());
    z % N_BITS
}

/// Whether `a` is at most as far from `target` as `b` is.
pub fn closer_or_equal(a: &[u8], b: &[u8], target: &[u8]) -> (r: bool)
    requires
        a@.len() == b@.len(),
    ensures
        r == (distance(a@, target@) <= distance(b@, target@)),
{
    let xa = xor_bytes(a, target);
    let xb = xor_bytes(b, target);
    let n = xa.len();
    let mut i: usize = 0;
    while i < n
        invariant
            xa@ == xor_seq(a@, target@),
            xb@ == xor_seq(b@, target@),
            n == xa@.len(),
            n == xb@.len(),
            i <= n,
            xa@.subrange(0, i as int) == xb@.subrange(0, i as int),
        decreases n - i,
    {
        if xa[i] != xb[i] {
            proof {
                if xa@[i as int] < xb@[i as int] {
                    lemma_be_value_first_difference(xa@, xb@, i as int);
                } else {
                    lemma_be_value_first_difference(xb@, xa@, i as int);
                }
            }
            return xa[i] < xb[i];
        }
        assert(xa@.subrange(0, i + 1) =~= xa@.subrange(0, i as int).push(xa@[i as int]));
        assert(xb@.subrange(0, i + 1) =~= xb@.subrange(0, i as int).push(xb@[i as int]));
        i = i + 1;
    }
    assert(xa@ =~= xa@.subrange(0, n as int));
    assert(xb@ =~= xb@.subrange(0, n as int));
    true
}

/// Whether an identifier starts with at least `difficulty` zero bits.
pub fn meets_difficulty(id: &[u8], difficulty: u32) -> (r: bool)
    requires
        id@.len() <= usize::MAX / 8,
    ensures
        r == (leading_zero_bits(id@) >= difficulty),
{
    count_leading_zero_bits(id) >= difficulty as usize
}

} // verus!
