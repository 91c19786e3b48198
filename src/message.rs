//! The canonical byte string that a request's signature covers: a version
//! byte, the request kind, the timestamp, then length-prefixed fields.
use vstd::prelude::*;
use crate::id::{lemma_pow256_positive, pow256};

verus! {

/// Version of the signed-message layout.
pub const MESSAGE_VERSION: u8 = 1;

/// Kind byte of a ping.
pub const KIND_PING: u8 = 1;

/// Kind byte of a store.
pub const KIND_STORE: u8 = 2;

/// Kind byte of a find-node.
pub const KIND_FIND_NODE: u8 = 3;

/// Kind byte of a find-value.
pub const KIND_FIND_VALUE: u8 = 4;

/// The `n` low-order bytes of `x`, most significant first.
pub open spec fn be_bytes(x: nat, n: nat) -> Seq<u8> {
    Seq::new(n, |i: int| ((x / pow256((n - 1 - i) as nat)) % 256) as u8)
}

/// A field: its length in eight big-endian bytes, then its bytes.
pub open spec fn field(b: Seq<u8>) -> Seq<u8> {
    be_bytes(b.len(), 8) + b
}

/// The signed message of a request of kind `kind`, sent at `timestamp` by
/// the node `requester_id` with public key `public_key`; `first` and
/// `second` are the request's own fields (empty where it has fewer).
pub open spec fn request_message(
    kind: u8,
    timestamp: i64,
    public_key: Seq<u8>,
    requester_id: Seq<u8>,
    first: Seq<u8>,
    second: Seq<u8>,
) -> Seq<u8> {
    seq![MESSAGE_VERSION, kind] + be_bytes(timestamp as u64 as nat, 8) + field(public_key) + field(
        requester_id,
    ) + field(first) + field(second)
}

proof fn lemma_pow256_step(n: nat)
    ensures
        pow256(n + 1) == 256 * pow256(n),
{
}

/// Appends the eight bytes of `x`, most significant first.
fn push_u64(out: &mut Vec<u8>, x: u64)
    ensures
        final(out)@ == old(out)@ + be_bytes(x as nat, 8),
{
    let mut div: u64 = 72057594037927936;
    proof {
        reveal_with_fuel(pow256, 8);
    }
    let mut i: usize = 0;
    while i < 8
        invariant
            i <= 8,
            i < 8 ==> div as nat == pow256((7 - i) as nat),
            out@ == old(out)@ + be_bytes(x as nat, 8).subrange(0, i as int),
        decreases 8 - i,
    {
        proof {
            lemma_pow256_positive((7 - i) as nat);
        }
        out.push(((x / div) % 256) as u8);
        proof {
            assert(out@ =~= old(out)@ + be_bytes(x as nat, 8).subrange(0, i + 1));
            if i < 7 {
                lemma_pow256_step((6 - i) as nat);
            }
        }
        if i < 7 {
            div = div / 256;
        }
        i = i + 1;
    }
    assert(be_bytes(x as nat, 8).subrange(0, 8) =~= be_bytes(x as nat, 8));
}

/// Appends `b` as a field.
fn push_field(out: &mut Vec<u8>, b: &[u8])
    ensures
        final(out)@ == old(out)@ + field(b@),
{
    push_u64(out, b.len() as u64);
    let ghost mid = out@;
    let mut i: usize = 0;
    while i < b.len()
        invariant
            i <= b@.len(),
            out@ == mid + b@.subrange(0, i as int),
        decreases b.len() - i,
    {
        out.push(b[i]);
        i = i + 1;
        assert(out@ =~= mid + b@.subrange(0, i as int));
    }
    assert(b@.subrange(0, i as int) =~= b@);
    assert(out@ =~= old(out)@ + field(b@));
}

/// The signed message of a request (see `request_message`).
pub fn encode_request_message(
    kind: u8,
    timestamp: i64,
    public_key: &[u8],
    requester_id: &[u8],
    first: &[u8],
    second: &[u8],
) -> (r: Vec<u8>)
    ensures
        r@ == request_message(kind, timestamp, public_key@, requester_id@, first@, second@),
{
    let mut out: Vec<u8> = Vec::new();
    out.push(MESSAGE_VERSION);
    out.push(kind);
    push_u64(&mut out, timestamp as u64);
    push_field(&mut out, public_key);
    push_field(&mut out, requester_id);
    push_field(&mut out, first);
    push_field(&mut out, second);
    assert(out@ =~= request_message(kind, timestamp, public_key@, requester_id@, first@, second@));
    out
}

} // verus!
