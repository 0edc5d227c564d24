use unbase::store::{checked_ident_base64, counter_value, ident_base64, merge_counter, open_status, slab_key};
use unbase::error::StorageError;
use unbase::slab::SlabId;

#[test]
fn store_slabref() {}

#[test]
fn merge_counter_adds_increments() {
    let one = 1u64.to_ne_bytes();
    let first = merge_counter(b"tests_executed", None, &one).unwrap();
    assert_eq!(counter_value(Some(&first)), 1);
    let second = merge_counter(b"tests_executed", Some(&first), &41u64.to_ne_bytes()).unwrap();
    assert_eq!(counter_value(Some(&second)), 42);
    assert_eq!(counter_value(None), 0);
}

#[test]
fn merge_counter_sums_ranges() {
    let mut stored: Option<Vec<u8>> = None;
    let mut expected = 0u64;
    for i in (1u64..500).chain(41..540).chain(91..590) {
        stored = merge_counter(b"concurrency_test", stored.as_deref(), &i.to_ne_bytes());
        expected += i;
    }
    assert_eq!(counter_value(stored.as_deref()), expected);
}

#[test]
fn slab_key_is_big_endian() {
    assert_eq!(slab_key(&SlabId(0x01020304)), vec![1, 2, 3, 4]);
    assert_eq!(slab_key(&SlabId(1234)), 1234u32.to_be_bytes().to_vec());
}

#[test]
fn open_status_of_missing_keypair() {
    assert_eq!(open_status(None), Err(StorageError::UninitializedStore));
    assert_eq!(open_status(Some(&[0u8; 64])), Ok(()));
    assert_eq!(ident_base64(None), Err(StorageError::RecordMissing));
}

#[test]
fn ident_of_keypair_bytes() {
    // A keypair whose public half is the compressed base point of the curve.
    let mut bytes = [0u8; 64];
    bytes[32] = 0x58;
    for b in bytes[33..].iter_mut() {
        *b = 0x66;
    }
    let ident = ident_base64(Some(&bytes)).unwrap();
    assert_eq!(ident, "WGZmZmZmZmZmZmZmZmZmZmZmZmZmZmZmZmZmZmZmZmY=");
    assert_eq!(checked_ident_base64(Some(&bytes)), Some(Ok(ident)));
    assert_eq!(checked_ident_base64(Some(&bytes[..10])), None);
}

#[test]
fn merge_counter_keeps_the_machine_byte_order() {
    assert_eq!(merge_counter(b"c", None, &5u64.to_ne_bytes()), Some(5u64.to_ne_bytes().to_vec()));
    assert_eq!(merge_counter(b"c", Some(&5u64.to_ne_bytes()[..]), &3u64.to_ne_bytes()), Some(8u64.to_ne_bytes().to_vec()));
    assert_eq!(
        merge_counter(b"c", Some(&u64::MAX.to_ne_bytes()[..]), &2u64.to_ne_bytes()),
        Some(1u64.to_ne_bytes().to_vec())
    );
}
