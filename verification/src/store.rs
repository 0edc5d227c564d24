use vstd::prelude::*;

use crate::error::StorageError;
use crate::slab::SlabId;

verus! {

/// The number that eight bytes hold, least significant byte first.
pub open spec fn le_value(b: Seq<u8>) -> int {
    b[0] + 0x100 * b[1] + 0x1_0000 * b[2] + 0x100_0000 * b[3] + 0x1_0000_0000 * b[4] + 0x100_0000_0000 * b[5]
        + 0x1_0000_0000_0000 * b[6] + 0x100_0000_0000_0000 * b[7]
}

/// The number that eight bytes hold, most significant byte first.
pub open spec fn be_value(b: Seq<u8>) -> int {
    b[7] + 0x100 * b[6] + 0x1_0000 * b[5] + 0x100_0000 * b[4] + 0x1_0000_0000 * b[3] + 0x100_0000_0000 * b[2]
        + 0x1_0000_0000_0000 * b[1] + 0x100_0000_0000_0000 * b[0]
}

/// Calls `u64::to_ne_bytes`: the eight bytes of `x` in this machine's byte
/// order, which is little-endian or big-endian; which of the two is not stated.
#[verifier::external_body]
fn u64_to_ne_bytes(x: u64) -> (r: Vec<u8>)
    ensures
        r@.len() == 8,
        le_value(r@) == x || be_value(r@) == x,
{
    x.to_ne_bytes().to_vec()
}

/// The number that eight bytes hold in the given byte order (`le`:
/// least significant byte first).
#[verifier::opaque]
pub open spec fn value_in(le: bool, b: Seq<u8>) -> int {
    if le {
        le_value(b)
    } else {
        be_value(b)
    }
}

/// Whether this machine stores numbers least significant byte first: the
/// byte order in which `u64::to_ne_bytes` writes the number 1.
fn native_is_little_endian() -> (r: bool) {
    let one = u64_to_ne_bytes(1);
    one[0] == 1
}

/// The eight bytes of `x` in the given byte order.
fn encode_u64(x: u64, le: bool) -> (r: Vec<u8>)
    ensures
        r@.len() == 8,
        value_in(le, r@) == x,
{
    let b0 = (x & 0xff) as u8;
    let b1 = ((x >> 8u64) & 0xff) as u8;
    let b2 = ((x >> 16u64) & 0xff) as u8;
    let b3 = ((x >> 24u64) & 0xff) as u8;
    let b4 = ((x >> 32u64) & 0xff) as u8;
    let b5 = ((x >> 40u64) & 0xff) as u8;
    let b6 = ((x >> 48u64) & 0xff) as u8;
    let b7 = ((x >> 56u64) & 0xff) as u8;
    proof {
        assert(x == (x & 0xff) + 0x100 * ((x >> 8u64) & 0xff) + 0x1_0000 * ((x >> 16u64) & 0xff) + 0x100_0000 * ((x >> 24u64)
            & 0xff) + 0x1_0000_0000 * ((x >> 32u64) & 0xff) + 0x100_0000_0000 * ((x >> 40u64) & 0xff) + 0x1_0000_0000_0000 * ((
        x >> 48u64) & 0xff) + 0x100_0000_0000_0000 * ((x >> 56u64) & 0xff)) by (bit_vector);
        assert((x & 0xff) < 0x100 && ((x >> 8u64) & 0xff) < 0x100 && ((x >> 16u64) & 0xff) < 0x100 && ((x >> 24u64) & 0xff)
            < 0x100 && ((x >> 32u64) & 0xff) < 0x100 && ((x >> 40u64) & 0xff) < 0x100 && ((x >> 48u64) & 0xff) < 0x100 && ((x
            >> 56u64) & 0xff) < 0x100) by (bit_vector);
    }
    proof {
        reveal(value_in);
    }
    let mut r: Vec<u8> = Vec::new();
    if le {
        r.push(b0);
        r.push(b1);
        r.push(b2);
        r.push(b3);
        r.push(b4);
        r.push(b5);
        r.push(b6);
        r.push(b7);
    } else {
        r.push(b7);
        r.push(b6);
        r.push(b5);
        r.push(b4);
        r.push(b3);
        r.push(b2);
        r.push(b1);
        r.push(b0);
    }
    r
}

/// The number that the eight bytes `b` hold in the given byte order.
fn decode_u64(b: &[u8], le: bool) -> (r: u64)
    requires
        b@.len() == 8,
    ensures
        r == value_in(le, b@),
{
    proof {
        reveal(value_in);
    }
    if le {
        b[0] as u64 + 0x100 * (b[1] as u64) + 0x1_0000 * (b[2] as u64) + 0x100_0000 * (b[3] as u64) + 0x1_0000_0000 * (
        b[4] as u64) + 0x100_0000_0000 * (b[5] as u64) + 0x1_0000_0000_0000 * (b[6] as u64) + 0x100_0000_0000_0000 * (
        b[7] as u64)
    } else {
        b[7] as u64 + 0x100 * (b[6] as u64) + 0x1_0000 * (b[5] as u64) + 0x100_0000 * (b[4] as u64) + 0x1_0000_0000 * (
        b[3] as u64) + 0x100_0000_0000 * (b[2] as u64) + 0x1_0000_0000_0000 * (b[1] as u64) + 0x100_0000_0000_0000 * (
        b[0] as u64)
    }
}

/// The stored bytes, if any, by value.
pub open spec fn stored_view(o: Option<&[u8]>) -> Option<Seq<u8>> {
    match o {
        Some(b) => Some(b@),
        None => None,
    }
}

/// `v` holds, in byte order `le`, the sum modulo 2^64 of what `last` holds
/// (0 when there is none) and what `op` holds, both read in that order.
pub open spec fn merged_in(le: bool, last: Option<Seq<u8>>, op: Seq<u8>, v: Seq<u8>) -> bool {
    value_in(le, v) == ((match last {
        Some(b) => value_in(le, b),
        None => 0,
    }) + value_in(le, op)) % 0x1_0000_0000_0000_0000
}

/// The merge operator of the counters tree: the stored counter (0 when
/// there is none) plus the increment, both in this machine's byte order,
/// and the sum written back in that order. The sum wraps around at
/// `u64::MAX`, as in a release build.
pub fn merge_counter(_key: &[u8], last_bytes: Option<&[u8]>, op_bytes: &[u8]) -> (r: Option<Vec<u8>>)
    requires
        last_bytes matches Some(b) ==> b@.len() == 8,
        op_bytes@.len() == 8,
    ensures
        r is Some,
        r.unwrap()@.len() == 8,
        exists|le: bool| #[trigger] merged_in(le, stored_view(last_bytes), op_bytes@, r.unwrap()@),
{
    let le = native_is_little_endian();
    let old_count = match last_bytes {
        Some(v) => decode_u64(v, le),
        None => 0u64,
    };
    let increment = decode_u64(op_bytes, le);
    let new_value = old_count.wrapping_add(increment);
    let v = encode_u64(new_value, le);
    proof {
        let a: int = match stored_view(last_bytes) {
            Some(b) => value_in(le, b),
            None => 0,
        };
        assert(old_count as int == a);
        assert(increment as int == value_in(le, op_bytes@));
        assert(new_value == (old_count + increment) % 0x1_0000_0000_0000_0000);
        assert(value_in(le, v@) == new_value);
        assert(merged_in(le, stored_view(last_bytes), op_bytes@, v@));
        assert(exists|l: bool| #[trigger] merged_in(l, stored_view(last_bytes), op_bytes@, v@));
    }
    let r = Some(v);
    proof {
        assert(r.unwrap()@ == v@);
    }
    r
}

/// The value of a counter as stored (0 when it was never incremented): the
/// eight stored bytes read in this machine's byte order.
pub fn counter_value(stored: Option<&[u8]>) -> (r: u64)
    requires
        stored matches Some(b) ==> b@.len() == 8,
    ensures
        stored is None ==> r == 0,
        stored matches Some(b) ==> exists|le: bool| r == #[trigger] value_in(le, b@),
{
    match stored {
        Some(b) => {
            let le = native_is_little_endian();
            decode_u64(b, le)
        },
        None => 0,
    }
}

/// The key under which a slab is stored: its id in big-endian byte order.
pub fn slab_key(slab_id: &SlabId) -> (r: Vec<u8>)
    ensures
        r@ == seq![
            (slab_id.0 / 0x100_0000) as u8,
            (slab_id.0 / 0x1_0000 % 0x100) as u8,
            (slab_id.0 / 0x100 % 0x100) as u8,
            (slab_id.0 % 0x100) as u8,
        ],
{
    let x = slab_id.0;
    let mut r: Vec<u8> = Vec::new();
    r.push((x / 0x100_0000) as u8);
    r.push((x / 0x1_0000 % 0x100) as u8);
    r.push((x / 0x100 % 0x100) as u8);
    r.push((x % 0x100) as u8);
    proof {
        assert(r@ =~= seq![
            (slab_id.0 / 0x100_0000) as u8,
            (slab_id.0 / 0x1_0000 % 0x100) as u8,
            (slab_id.0 / 0x100 % 0x100) as u8,
            (slab_id.0 % 0x100) as u8,
        ]);
    }
    r
}

/// Whether `ed25519_dalek::Keypair::from_bytes` accepts these bytes: 64
/// bytes whose last 32 are a point on the curve.
pub uninterp spec fn ed25519_keypair_accepts(bytes: Seq<u8>) -> bool;

/// Calls `ed25519_dalek::Keypair::from_bytes` and gives the bytes of the
/// public key of the keypair. The source refuses any length but 64 bytes,
/// and takes the public key from the last 32 bytes, which `as_bytes` gives
/// back as they were.
#[verifier::external_body]
fn keypair_public_bytes(bytes: &[u8]) -> (r: Result<Vec<u8>, ()>)
    ensures
        r is Ok <==> ed25519_keypair_accepts(bytes@),
        bytes@.len() != 64 ==> r is Err,
        r matches Ok(p) ==> p@ == bytes@.subrange(32, 64),
{
    match ed25519_dalek::Keypair::from_bytes(bytes) {
        Ok(kp) => Ok(kp.public.as_bytes().to_vec()),
        Err(_) => Err(()),
    }
}

/// The standard base64 text (with padding) of `bytes`.
pub uninterp spec fn base64_standard(bytes: Seq<u8>) -> Seq<char>;

/// Calls `base64::encode`: the standard base64 text of `bytes`, four
/// characters for every three bytes or part of three. The source panics
/// when that length overflows `usize`.
#[verifier::external_body]
fn base64_encode(bytes: &[u8]) -> (r: String)
    requires
        bytes@.len() / 3 * 4 + 4 <= usize::MAX,
    ensures
        r@ == base64_standard(bytes@),
        r@.len() == 4 * ((bytes@.len() + 2) / 3),
{
    base64::encode(bytes)
}

/// The identity of a slab: the base64 text of the public key of its stored
/// keypair; `RecordMissing` when no keypair is stored.
pub fn ident_base64(stored_keypair: Option<&[u8]>) -> (r: Result<String, StorageError>)
    requires
        stored_keypair matches Some(b) ==> ed25519_keypair_accepts(b@),
    ensures
        stored_keypair is None ==> r == Err::<String, StorageError>(StorageError::RecordMissing),
        stored_keypair matches Some(b) ==> (r matches Ok(s) && s@ == base64_standard(b@.subrange(32, 64))),
{
    match stored_keypair {
        None => Err(StorageError::RecordMissing),
        Some(b) => {
            match keypair_public_bytes(b) {
                Ok(p) => Ok(base64_encode(p.as_slice())),
                Err(_) => Err(StorageError::RecordMissing),
            }
        },
    }
}

/// The identity of a slab, when its stored keypair (if any) can be read:
/// `None` when the stored bytes are not a keypair.
pub fn checked_ident_base64(stored_keypair: Option<&[u8]>) -> (r: Option<Result<String, StorageError>>)
    ensures
        stored_keypair is None ==> r == Some(Err::<String, StorageError>(StorageError::RecordMissing)),
        stored_keypair matches Some(b) ==> (ed25519_keypair_accepts(b@) ==> (r matches Some(Ok(s)) && s@
            == base64_standard(b@.subrange(32, 64)))) && (!ed25519_keypair_accepts(b@) ==> r is None),
{
    match stored_keypair {
        None => Some(Err(StorageError::RecordMissing)),
        Some(b) => {
            match keypair_public_bytes(b) {
                Ok(_) => Some(ident_base64(stored_keypair)),
                Err(_) => None,
            }
        },
    }
}

/// Whether a store can be opened, given its stored keypair (if any): a
/// store without one was never initialized.
pub fn open_status(stored_keypair: Option<&[u8]>) -> (r: Result<(), StorageError>)
    ensures
        stored_keypair is None ==> r == Err::<(), StorageError>(StorageError::UninitializedStore),
        stored_keypair is Some ==> r is Ok,
{
    match stored_keypair {
        None => Err(StorageError::UninitializedStore),
        Some(_) => Ok(()),
    }
}

} // verus!
