use unbase::agent::{localize_memobody, remotize_memoref, residentize_memoref, MemoResidency};
use unbase::error::StorageOpDeclined;
use unbase::slab::{MemoBody, MemoPeer, MemoPeerList, MemoPeeringStatus, Slab, SlabId, SubjectId, SubjectType, ValueSet};

fn record(id: u64) -> SubjectId {
    SubjectId { id, stype: SubjectType::Record }
}

#[test]
fn residentize_remote_memo_stores_a_resident_peering_memo() {
    let mut slab = Slab::new_with_id(SlabId(4));
    let m = slab.new_memo_basic_noparent(record(2), MemoBody::Edit(ValueSet(vec![])));
    let mut residency = MemoResidency::Remote;
    let peering = residentize_memoref(&mut slab, &mut residency, &m).expect("a peering memo");
    assert_eq!(residency, MemoResidency::Resident);
    assert_eq!(peering.memo_id, 1);
    assert!(peering.subject_id.is_anonymous());
    let memo = slab.get_memo(&peering).unwrap();
    match &memo.body {
        MemoBody::Peering(id, subject, peers) => {
            assert_eq!(*id, 0);
            assert_eq!(*subject, Some(record(2)));
            assert_eq!(peers.0, vec![MemoPeer { slab_id: SlabId(4), status: MemoPeeringStatus::Resident }]);
        },
        other => panic!("unexpected body {:?}", other),
    }
    assert_eq!(memo.parents.memo_ids(), vec![0]);
    // resident already: nothing more
    assert_eq!(residentize_memoref(&mut slab, &mut residency, &m), None);
    assert_eq!(slab.memo_count(), 2);
}

#[test]
fn remotize_needs_a_peer() {
    let mut slab = Slab::new_with_id(SlabId(4));
    let m = slab.new_memo_basic_noparent(SubjectId::anonymous(), MemoBody::Edit(ValueSet(vec![])));
    let mut residency = MemoResidency::Resident;
    assert_eq!(remotize_memoref(&mut slab, &mut residency, &m, 0), Err(StorageOpDeclined::InsufficientPeering));
    assert_eq!(residency, MemoResidency::Resident);
    assert_eq!(slab.memo_count(), 1);

    let peering = remotize_memoref(&mut slab, &mut residency, &m, 2).unwrap().expect("a peering memo");
    assert_eq!(residency, MemoResidency::Remote);
    match &slab.get_memo(&peering).unwrap().body {
        MemoBody::Peering(id, subject, peers) => {
            assert_eq!(*id, 0);
            assert_eq!(*subject, None);
            assert_eq!(peers.0, vec![MemoPeer { slab_id: SlabId(4), status: MemoPeeringStatus::Participating }]);
        },
        other => panic!("unexpected body {:?}", other),
    }
    // remote already: nothing more
    assert_eq!(remotize_memoref(&mut slab, &mut residency, &m, 2), Ok(None));
    assert_eq!(slab.memo_count(), 2);
}

#[test]
fn localize_memobody_copies_a_local_body() {
    let body = MemoBody::Peering(3, Some(record(1)), MemoPeerList(vec![MemoPeer { slab_id: SlabId(4), status: MemoPeeringStatus::Participating }]));
    match localize_memobody(&body, SlabId(4)) {
        MemoBody::Peering(3, Some(s), peers) => {
            assert_eq!(s, record(1));
            assert_eq!(peers.0, vec![MemoPeer { slab_id: SlabId(4), status: MemoPeeringStatus::Participating }]);
        },
        other => panic!("unexpected body {:?}", other),
    }
    let request = MemoBody::MemoRequest(vec![1, 2], SlabId(4));
    assert!(matches!(localize_memobody(&request, SlabId(4)), MemoBody::MemoRequest(ids, SlabId(4)) if ids == vec![1, 2]));
    let edit = MemoBody::Edit(ValueSet(vec![("a".to_string(), "b".to_string())]));
    assert!(matches!(localize_memobody(&edit, SlabId(4)), MemoBody::Edit(v) if v.0 == vec![("a".to_string(), "b".to_string())]));
}
