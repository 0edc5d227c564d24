use unbase::error::BufferError;
use unbase::memorefhead::MemoRefHead;
use unbase::netbuf::{MemoBodyBuffer, MemoBuffer, MemoRefBuffer, NetbufSegment, NetworkBuffer, MAX_SEGMENTS};
use unbase::network::{TransportAddress, TransportLiveness};
use unbase::slab::{
    EdgeSet, Memo, MemoBody, MemoPeer, MemoPeerList, MemoPeeringStatus, MemoRef, RelationSet, SlabId, SlabPresence,
    SubjectId, SubjectType, ValueSet,
};

fn record(id: u64) -> SubjectId {
    SubjectId { id, stype: SubjectType::Record }
}

fn mref(memo_id: u64, subject: SubjectId) -> MemoRef {
    MemoRef { memo_id, subject_id: subject }
}

fn head(refs: Vec<MemoRef>, subject: SubjectId) -> MemoRefHead {
    MemoRefHead::Subject { subject_id: subject, head: refs }
}

fn peers(ids: &[u32]) -> MemoPeerList {
    MemoPeerList(ids.iter().map(|i| MemoPeer { slab_id: SlabId(*i), status: MemoPeeringStatus::Resident }).collect())
}

fn edit_memo(id: u64, subject: SubjectId, parents: Vec<MemoRef>) -> Memo {
    Memo {
        id,
        subject_id: subject,
        parents: head(parents, subject),
        body: MemoBody::Edit(ValueSet(vec![("k".to_string(), "v".to_string())])),
    }
}

#[test]
fn netbuf_new_is_empty_and_populated() {
    let buf = NetworkBuffer::new();
    assert_eq!(buf.segment_count(), 0);
    assert!(buf.is_fully_populated());
}

#[test]
fn netbuf_writes_memoref_peers_parents_and_memo() {
    let mut buf = NetworkBuffer::new();
    let memo = edit_memo(7, record(1), vec![mref(5, record(1))]);
    let r = buf.add_memoref_peerset_and_memo(&mref(7, record(1)), &peers(&[3, 4]), &memo);
    assert_eq!(r, Ok(()));
    let segs = buf.segments();
    assert_eq!(segs.len(), 6);
    assert!(matches!(segs[0], NetbufSegment::Subject(s) if s == record(1)));
    assert!(matches!(segs[1], NetbufSegment::SlabRef(SlabId(3))));
    assert!(matches!(segs[2], NetbufSegment::SlabRef(SlabId(4))));
    match &segs[3] {
        NetbufSegment::MemoRef(MemoRefBuffer(7, Some(ps), 0)) => {
            assert_eq!(ps.len(), 2);
            assert_eq!(ps[0].0, 1);
            assert_eq!(ps[1].0, 2);
            assert_eq!(ps[0].1, MemoPeeringStatus::Resident);
        },
        other => panic!("unexpected segment {:?}", other),
    }
    assert!(matches!(segs[4], NetbufSegment::MemoRef(MemoRefBuffer(5, None, 0))));
    match &segs[5] {
        NetbufSegment::Memo(MemoBuffer(3, parents, MemoBodyBuffer::Edit(v))) => {
            assert_eq!(parents, &vec![4u16]);
            assert_eq!(v, &vec![("k".to_string(), "v".to_string())]);
        },
        other => panic!("unexpected segment {:?}", other),
    }
    // the parent's peers were never written
    assert!(!buf.is_fully_populated());
}

#[test]
fn netbuf_reuses_segments_it_holds() {
    let mut buf = NetworkBuffer::new();
    let first = edit_memo(5, record(1), vec![]);
    assert_eq!(buf.add_memoref_peerset_and_memo(&mref(5, record(1)), &peers(&[3]), &first), Ok(()));
    assert_eq!(buf.segment_count(), 4);
    let second = edit_memo(6, record(1), vec![mref(5, record(1))]);
    assert_eq!(buf.add_memoref_peerset_and_memo(&mref(6, record(1)), &peers(&[3]), &second), Ok(()));
    // only the new memoref and the memo: subject, slab and parent are reused
    assert_eq!(buf.segment_count(), 6);
    match &buf.segments()[5] {
        NetbufSegment::Memo(MemoBuffer(4, parents, _)) => assert_eq!(parents, &vec![2u16]),
        other => panic!("unexpected segment {:?}", other),
    }
}

#[test]
fn netbuf_refuses_a_memo_that_does_not_fit() {
    let mut buf = NetworkBuffer::new();
    let ids: Vec<u64> = (0..70000).collect();
    let memo = Memo { id: 1, subject_id: record(1), parents: MemoRefHead::Null, body: MemoBody::MemoRequest(ids, SlabId(2)) };
    let r = buf.add_memoref_peerset_and_memo(&mref(1, record(1)), &peers(&[]), &memo);
    assert_eq!(r, Err(BufferError::Full));
    assert_eq!(buf.segment_count(), 0);
    assert!(buf.is_fully_populated());
}

#[test]
fn netbuf_accepts_a_memo_that_fits_though_its_worst_case_does_not() {
    let mut buf = NetworkBuffer::new();
    let ids: Vec<u64> = (0..40000).collect();
    let memo = Memo { id: 1, subject_id: record(1), parents: MemoRefHead::Null, body: MemoBody::MemoRequest(ids, SlabId(2)) };
    let r = buf.add_memoref_peerset_and_memo(&mref(1, record(1)), &peers(&[]), &memo);
    assert_eq!(r, Ok(()));
    // subject, memoref 1, the anonymous subject, 40000 memorefs, slab 2, memo
    assert_eq!(buf.segment_count(), 40005);
    assert!(MAX_SEGMENTS < 2 * 40000);
}

#[test]
fn netbuf_populate_refuses_when_a_slab_does_not_fit() {
    let mut buf = NetworkBuffer::new();
    let ids: Vec<u64> = (0..65530).collect();
    let memo = Memo { id: 1, subject_id: record(1), parents: MemoRefHead::Null, body: MemoBody::MemoRequest(ids, SlabId(2)) };
    // subject, memoref 1 with its peers, the anonymous subject, 65530 memorefs, slab 2, memo
    assert_eq!(buf.add_memoref_peerset_and_memo(&mref(1, record(1)), &peers(&[]), &memo), Ok(()));
    assert_eq!(buf.segment_count(), 65535);
    let r = buf.populate_memopeersets(|m: &MemoRef| peers(&[(m.memo_id % 3) as u32 + 100]));
    assert_eq!(r, Err(BufferError::Full));
    assert_eq!(buf.segment_count(), MAX_SEGMENTS);
}

#[test]
fn netbuf_encodes_request_peering_relation_and_presence_bodies() {
    let mut buf = NetworkBuffer::new();
    let anon = SubjectId { id: 0, stype: SubjectType::Anonymous };
    let request = Memo { id: 1, subject_id: anon, parents: MemoRefHead::Null, body: MemoBody::MemoRequest(vec![9], SlabId(2)) };
    assert_eq!(buf.add_memoref_peerset_and_memo(&mref(1, anon), &peers(&[]), &request), Ok(()));
    // subject, memoref 1, memoref 9 (anonymous subject reused), slab 2, memo
    assert_eq!(buf.segment_count(), 5);
    match &buf.segments()[4] {
        NetbufSegment::Memo(MemoBuffer(1, _, MemoBodyBuffer::MemoRequest(offs, slabs))) => {
            assert_eq!(offs, &vec![2u16]);
            assert_eq!(slabs, &vec![3u16]);
        },
        other => panic!("unexpected segment {:?}", other),
    }

    let peering = Memo {
        id: 2,
        subject_id: anon,
        parents: MemoRefHead::Null,
        body: MemoBody::Peering(9, None, peers(&[2, 8])),
    };
    assert_eq!(buf.add_memoref_peerset_and_memo(&mref(2, anon), &peers(&[]), &peering), Ok(()));
    match &buf.segments()[buf.segment_count() - 1] {
        NetbufSegment::Memo(MemoBuffer(_, _, MemoBodyBuffer::Peering(off, ps))) => {
            assert_eq!(*off, 2);
            assert_eq!(ps.len(), 2);
            assert_eq!(ps[0].0, 3);
        },
        other => panic!("unexpected segment {:?}", other),
    }

    let relation = Memo {
        id: 3,
        subject_id: record(4),
        parents: MemoRefHead::Null,
        body: MemoBody::Relation(RelationSet(vec![(0, Some(record(5))), (1, None)])),
    };
    assert_eq!(buf.add_memoref_peerset_and_memo(&mref(3, record(4)), &peers(&[]), &relation), Ok(()));
    let n = buf.segment_count();
    assert!(matches!(buf.segments()[n - 2], NetbufSegment::Subject(s) if s == record(5)));
    match &buf.segments()[n - 1] {
        NetbufSegment::Memo(MemoBuffer(_, _, MemoBodyBuffer::Relation(rs))) => {
            assert_eq!(rs, &vec![(0u8, Some((n - 2) as u16)), (1u8, None)]);
        },
        other => panic!("unexpected segment {:?}", other),
    }

    let presence = Memo {
        id: 4,
        subject_id: anon,
        parents: MemoRefHead::Null,
        body: MemoBody::SlabPresence {
            p: SlabPresence { slab_id: SlabId(2), address: TransportAddress::Local, liveness: TransportLiveness::Available },
            seed: MemoRefHead::Null,
        },
    };
    assert_eq!(buf.add_memoref_peerset_and_memo(&mref(4, anon), &peers(&[]), &presence), Ok(()));
    match &buf.segments()[buf.segment_count() - 1] {
        NetbufSegment::Memo(MemoBuffer(_, _, MemoBodyBuffer::SlabPresence { p, r })) => {
            assert_eq!(p.0, 3);
            assert_eq!(p.2, TransportLiveness::Available);
            assert!(r.is_empty());
        },
        other => panic!("unexpected segment {:?}", other),
    }
}

#[test]
fn netbuf_encodes_edges() {
    let mut buf = NetworkBuffer::new();
    let memo = Memo {
        id: 1,
        subject_id: record(1),
        parents: MemoRefHead::Null,
        body: MemoBody::Edge(EdgeSet(vec![(4, head(vec![mref(8, record(2))], record(2)))])),
    };
    assert_eq!(buf.add_memoref_peerset_and_memo(&mref(1, record(1)), &peers(&[]), &memo), Ok(()));
    // subject 1, memoref 1, subject 2, memoref 8, memo
    assert_eq!(buf.segment_count(), 5);
    match &buf.segments()[4] {
        NetbufSegment::Memo(MemoBuffer(1, _, MemoBodyBuffer::Edge(e))) => assert_eq!(e.0, vec![(4u8, vec![3u16])]),
        other => panic!("unexpected segment {:?}", other),
    }
}

#[test]
fn netbuf_populates_missing_peer_lists() {
    let mut buf = NetworkBuffer::new();
    let memo = edit_memo(7, record(1), vec![mref(5, record(1))]);
    assert_eq!(buf.add_memoref_peerset_and_memo(&mref(7, record(1)), &peers(&[]), &memo), Ok(()));
    assert!(!buf.is_fully_populated());
    let r = buf.populate_memopeersets(|m: &MemoRef| peers(&[m.memo_id as u32 + 10]));
    assert_eq!(r, Ok(()));
    // the parent (memo 5) got slab 15
    match &buf.segments()[2] {
        NetbufSegment::MemoRef(MemoRefBuffer(5, Some(ps), 0)) => {
            assert_eq!(ps.len(), 1);
            assert!(matches!(buf.segments()[ps[0].0 as usize], NetbufSegment::SlabRef(SlabId(15))));
        },
        other => panic!("unexpected segment {:?}", other),
    }
    // memo 7's own peers were written with it and stay as they were
    assert!(matches!(&buf.segments()[1], NetbufSegment::MemoRef(MemoRefBuffer(7, Some(ps), 0)) if ps.is_empty()));
}

#[test]
fn netbuf_from_segments() {
    let buf = NetworkBuffer::from_segments(vec![NetbufSegment::Subject(record(1))]).unwrap();
    assert_eq!(buf.segment_count(), 1);
    assert!(buf.is_fully_populated());
}

#[test]
fn netbuf_memo_with_its_segments_present_needs_one_more() {
    let mut buf = NetworkBuffer::new();
    let ids: Vec<u64> = (0..65530).collect();
    let memo = Memo { id: 1, subject_id: record(1), parents: MemoRefHead::Null, body: MemoBody::MemoRequest(ids, SlabId(2)) };
    assert_eq!(buf.add_memoref_peerset_and_memo(&mref(1, record(1)), &peers(&[]), &memo), Ok(()));
    assert_eq!(buf.segment_count(), 65535);
    // every subject, memoref and slab is there already: only the memo segment is added
    assert_eq!(buf.add_memoref_peerset_and_memo(&mref(1, record(1)), &peers(&[]), &memo), Ok(()));
    assert_eq!(buf.segment_count(), MAX_SEGMENTS);
    assert_eq!(buf.add_memoref_peerset_and_memo(&mref(1, record(1)), &peers(&[]), &memo), Err(BufferError::Full));
    assert_eq!(buf.segment_count(), MAX_SEGMENTS);
}
