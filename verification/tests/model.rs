use unbase::agent::{apply_received_seed, check_peering_target, incoming_memo_action, notifies_index_subscribers, presence_for_origin, IncomingAction, SystemCreator};
use unbase::error::{RetrieveError, WriteError};
use unbase::memorefhead::MemoRefHead;
use unbase::network::{
    RouteError,
    Blackhole, LocalDirect, Network, TransmitterArgs, TransmitterKind, Transport, TransportAddress,
    TransportAddressUDP, TransportLiveness,
};
use unbase::projection::EdgeLink;
use unbase::slab::{
    EdgeSet, MemoBody, MemoPeer, MemoPeeringStatus, MemoRef, RelationSet, Slab, SlabId, SlabPresence, SubjectId, SubjectType,
    ValueSet,
};

fn values(pairs: &[(&str, &str)]) -> ValueSet {
    ValueSet(pairs.iter().map(|(k, v)| (k.to_string(), v.to_string())).collect())
}

fn record(id: u64) -> SubjectId {
    SubjectId { id, stype: SubjectType::Record }
}

#[test]
fn slab_memos_descend_their_parents() {
    let mut slab = Slab::new_with_id(SlabId(3));
    let a = slab.new_memo_basic_noparent(record(1), MemoBody::Edit(values(&[("k", "1")])));
    let b = slab.new_memo_basic(record(1), a.to_head(), MemoBody::Edit(values(&[("k", "2")])));
    let c = slab.new_memo_basic(record(1), b.to_head(), MemoBody::Edit(values(&[("k", "3")])));
    assert_eq!(slab.memo_count(), 3);
    assert_eq!(c.descends(&a, &slab), Ok(true));
    assert_eq!(a.descends(&c, &slab), Ok(false));
    assert_eq!(b.descends(&b, &slab), Ok(false));
    let missing = MemoRef { memo_id: 9, subject_id: record(1) };
    assert_eq!(missing.descends(&a, &slab), Err(RetrieveError::NotFound));
    assert_eq!(slab.slab_id(), SlabId(3));
}

#[test]
fn apply_memoref_replaces_descended_and_keeps_concurrent() {
    let mut slab = Slab::new_with_id(SlabId(3));
    let a = slab.new_memo_basic_noparent(record(1), MemoBody::Edit(values(&[])));
    let b = slab.new_memo_basic_noparent(record(1), MemoBody::Edit(values(&[])));
    let c = slab.new_memo_basic(record(1), a.to_head(), MemoBody::Edit(values(&[])));

    let mut head = MemoRefHead::Null;
    assert_eq!(head.apply_memoref(&a, &slab), Ok(true));
    assert_eq!(head.memo_ids(), vec![0]);
    // concurrent: appended
    assert_eq!(head.apply_memoref(&b, &slab), Ok(true));
    assert_eq!(head.memo_ids(), vec![0, 1]);
    // already there: nothing applied
    assert_eq!(head.apply_memoref(&b, &slab), Ok(false));
    // descendant of a: replaces it
    assert_eq!(head.apply_memoref(&c, &slab), Ok(true));
    assert_eq!(head.memo_ids(), vec![2, 1]);
    // ancestor of c: nothing applied
    assert_eq!(head.apply_memoref(&a, &slab), Ok(false));
    assert_eq!(head.memo_ids(), vec![2, 1]);
    // a memo the slab does not hold
    let missing = MemoRef { memo_id: 77, subject_id: record(1) };
    assert_eq!(head.apply_memoref(&missing, &slab), Err(WriteError::RetrieveError(Box::new(RetrieveError::NotFound))));
    assert_eq!(head.memo_ids(), vec![2, 1]);
}

#[test]
fn descends_or_contains_heads() {
    let mut slab = Slab::new_with_id(SlabId(3));
    let a = slab.new_memo_basic_noparent(record(1), MemoBody::Edit(values(&[])));
    let b = slab.new_memo_basic(record(1), a.to_head(), MemoBody::Edit(values(&[])));
    assert_eq!(b.to_head().descends_or_contains(&a.to_head(), &slab), Ok(true));
    assert_eq!(a.to_head().descends_or_contains(&a.to_head(), &slab), Ok(true));
    assert_eq!(a.to_head().descends_or_contains(&b.to_head(), &slab), Ok(false));
    assert_eq!(MemoRefHead::Null.descends_or_contains(&a.to_head(), &slab), Ok(false));
}

#[test]
fn projection_reads_latest_edit() {
    let mut slab = Slab::new_with_id(SlabId(3));
    let a = slab.new_memo_basic_noparent(
        record(1),
        MemoBody::FullyMaterialized { v: values(&[("name", "alpha"), ("color", "red")]), r: RelationSet(vec![]), e: EdgeSet(vec![]), t: SubjectType::Record },
    );
    let b = slab.new_memo_basic(record(1), a.to_head(), MemoBody::Edit(values(&[("name", "beta")])));
    let head = b.to_head();
    assert_eq!(head.project_value(&slab, "name"), Some("beta".to_string()));
    assert_eq!(head.project_value(&slab, "color"), Some("red".to_string()));
    assert_eq!(head.project_value(&slab, "size"), None);
    assert_eq!(head.project_relation(&slab, 0), Err(RetrieveError::NotFound));
}

#[test]
fn projection_of_edges() {
    let mut slab = Slab::new_with_id(SlabId(3));
    let child = slab.new_memo_basic_noparent(SubjectId::index_test(2), MemoBody::Edit(values(&[])));
    let parent = slab.new_memo_basic_noparent(
        SubjectId::index_test(1),
        MemoBody::FullyMaterialized { v: values(&[]), r: RelationSet(vec![(3, Some(record(9)))]), e: EdgeSet(vec![(5, child.to_head())]), t: SubjectType::IndexNode },
    );
    let head = parent.to_head();
    assert_eq!(head.project_relation(&slab, 3), Ok(Some(record(9))));
    let edge = head.project_edge(&slab, 5).unwrap().unwrap();
    assert_eq!(edge.memo_ids(), vec![child.memo_id]);
    let links = head.project_all_edge_links_including_empties(&slab);
    assert_eq!(links.len(), 256);
    let occupied = head.project_occupied_edges(&slab);
    assert_eq!(occupied.len(), 1);
    match &occupied[0] {
        EdgeLink::Occupied { slot_id, head } => {
            assert_eq!(*slot_id, 5);
            assert_eq!(head.memo_ids(), vec![child.memo_id]);
        },
        EdgeLink::Vacant { .. } => panic!("expected an occupied link"),
    }
}

#[test]
fn edge_set_insert_replaces_slot() {
    let mut slab = Slab::new_with_id(SlabId(3));
    let a = slab.new_memo_basic_noparent(record(1), MemoBody::Edit(values(&[])));
    let b = slab.new_memo_basic_noparent(record(2), MemoBody::Edit(values(&[])));
    let mut es = EdgeSet::empty();
    es.insert(4, a.to_head());
    es.insert(4, b.to_head());
    es.insert(6, a.to_head());
    assert_eq!(es.len(), 2);
    assert_eq!(es.get(4).unwrap().memo_ids(), vec![1]);
    assert_eq!(es.get(6).unwrap().memo_ids(), vec![0]);
    assert!(es.get(5).is_none());
}

#[test]
fn slab_id_short_is_decimal() {
    assert_eq!(SlabId(0).short(), "0");
    assert_eq!(SlabId(1234).short(), "1234");
    assert_eq!(SlabId(4294967295).short(), "4294967295");
}

#[test]
fn udp_address_text() {
    let a = TransportAddressUDP { address: "127.0.0.1:12001".to_string() };
    assert_eq!(a.to_string(), "udp:127.0.0.1:12001");
}

#[test]
fn transports_make_transmitters() {
    let bh = Blackhole::new();
    assert!(bh.is_local());
    let t = bh.make_transmitter(&TransmitterArgs::Local(SlabId(5))).unwrap();
    assert_eq!(t.kind, TransmitterKind::Blackhole);
    assert_eq!(t.to_slab_id, SlabId(5));
    assert_eq!(t.kind.kind(), "Blackhole");
    assert!(matches!(bh.get_return_address(&TransportAddress::Local), TransportAddress::Blackhole));

    let ld = LocalDirect::new();
    let t = ld.make_transmitter(&TransmitterArgs::Local(SlabId(6))).unwrap();
    assert_eq!(t.kind, TransmitterKind::Local);
    assert_eq!(t.to_slab_id, SlabId(6));
    assert!(ld.make_transmitter(&TransmitterArgs::Remote(SlabId(7), TransportAddress::Blackhole)).is_none());
    assert!(matches!(ld.get_return_address(&TransportAddress::Local), TransportAddress::Local));
    assert!(matches!(ld.get_return_address(&TransportAddress::Blackhole), TransportAddress::Blackhole));
    assert_eq!(TransmitterArgs::Remote(SlabId(8), TransportAddress::Blackhole).get_slab_id(), SlabId(8));
}

#[test]
fn network_generates_distinct_slab_ids() {
    let mut net = Network::create_new_system();
    let a = net.generate_slab_id();
    let b = net.generate_slab_id();
    assert_eq!((a, b), (0, 1));
    net.register_local_slab(SlabId(a));
    assert_eq!(net.get_local_slab_count(), 1);
}

#[test]
fn agent_decisions() {
    let mut slab = Slab::new_with_id(SlabId(3));
    let edit = slab.new_memo_basic_noparent(record(1), MemoBody::Edit(values(&[])));
    let presence = presence_for_origin(SlabId(3), TransportAddress::Local);
    assert_eq!(presence.slab_id, SlabId(3));
    assert_eq!(presence.liveness, TransportLiveness::Unknown);
    let body = MemoBody::SlabPresence { p: presence, seed: MemoRefHead::Null };
    assert_eq!(incoming_memo_action(&body, SlabId(3)), IncomingAction::ReplyWithPresence);
    let body = MemoBody::SlabPresence {
        p: SlabPresence { slab_id: SlabId(4), address: TransportAddress::Blackhole, liveness: TransportLiveness::Available },
        seed: edit.to_head(),
    };
    assert_eq!(incoming_memo_action(&body, SlabId(3)), IncomingAction::ApplyRootIndexSeed);
    assert_eq!(incoming_memo_action(&MemoBody::Edit(values(&[])), SlabId(3)), IncomingAction::Nothing);
    assert!(notifies_index_subscribers(&SubjectId::index_test(1)));
    assert!(!notifies_index_subscribers(&record(1)));
    let memo = slab.get_memo(&edit).unwrap();
    assert_eq!(check_peering_target(memo), 5);
}

#[test]
fn root_index_seed_is_an_empty_index_node() {
    let mut slab = Slab::new_with_id(SlabId(3));
    let seed = SystemCreator::generate_root_index_seed(&mut slab);
    assert_eq!(seed.memo_ids(), vec![0]);
    assert_eq!(seed.subject_id().unwrap().stype, SubjectType::IndexNode);
    let memo = slab.get_memo(&MemoRef { memo_id: 0, subject_id: seed.subject_id().unwrap() }).unwrap();
    assert_eq!(check_peering_target(memo), 5);
    assert!(seed.is_fully_materialized(&slab));
}

#[test]
fn memo_getters_by_body() {
    let mut slab = Slab::new_with_id(SlabId(3));
    let a = slab.new_memo_basic_noparent(record(1), MemoBody::Edit(values(&[("k", "v")])));
    let b = slab.new_memo_basic(
        record(1),
        a.to_head(),
        MemoBody::FullyMaterialized {
            v: values(&[("x", "y")]),
            r: RelationSet(vec![(2, Some(record(9)))]),
            e: EdgeSet(vec![(1, a.to_head())]),
            t: SubjectType::Record,
        },
    );
    let ma = slab.get_memo(&a).unwrap();
    let (va, full_a) = ma.get_values().unwrap();
    assert_eq!(va.0, vec![("k".to_string(), "v".to_string())]);
    assert!(!full_a);
    assert!(ma.get_relations().is_none());
    assert!(ma.get_edges().is_none());
    assert_eq!(ma.get_parent_head().memo_ids(), Vec::<u64>::new());

    let mb = slab.get_memo(&b).unwrap();
    let (vb, full_b) = mb.get_values().unwrap();
    assert_eq!(vb.0, vec![("x".to_string(), "y".to_string())]);
    assert!(full_b);
    let (rb, _) = mb.get_relations().unwrap();
    assert_eq!(rb.0, vec![(2u8, Some(record(9)))]);
    let (eb, _) = mb.get_edges().unwrap();
    assert_eq!(eb.0.len(), 1);
    assert_eq!(eb.0[0].1.memo_ids(), vec![0]);
    assert_eq!(mb.get_parent_head().memo_ids(), vec![0]);
}

#[test]
fn head_to_vecdeque_keeps_order() {
    let head = MemoRefHead::Subject {
        subject_id: record(1),
        head: vec![MemoRef { memo_id: 4, subject_id: record(1) }, MemoRef { memo_id: 2, subject_id: record(1) }],
    };
    let q = head.to_vecdeque();
    assert_eq!(q.len(), 2);
    assert_eq!(q[0].memo_id, 4);
    assert_eq!(q[1].memo_id, 2);
    assert!(MemoRefHead::Null.to_vecdeque().is_empty());
}

#[test]
fn packet_destination_routes_to_a_local_slab() {
    let mut net = Network::new();
    assert_eq!(net.packet_destination(SlabId(0)), Err(RouteError::NoRepresentativeSlab));
    assert_eq!(net.packet_destination(SlabId(4)), Err(RouteError::DestinationNotFound));
    net.register_local_slab(SlabId(3));
    net.register_local_slab(SlabId(4));
    assert_eq!(net.packet_destination(SlabId(0)), Ok(SlabId(3)));
    assert_eq!(net.packet_destination(SlabId(4)), Ok(SlabId(4)));
    assert_eq!(net.packet_destination(SlabId(5)), Err(RouteError::DestinationNotFound));
}

#[test]
fn received_seed_marks_memos_resident_and_seeds_the_network_once() {
    let mut net = Network::new();
    let a = MemoRef { memo_id: 3, subject_id: SubjectId { id: 9, stype: SubjectType::IndexNode } };
    let b = MemoRef { memo_id: 5, subject_id: SubjectId { id: 9, stype: SubjectType::IndexNode } };
    let seed = MemoRefHead::Subject { subject_id: a.subject_id, head: vec![a, b] };
    let (updates, taken) = apply_received_seed(&mut net, &seed, SlabId(7), SlabId(1));
    assert!(taken);
    let resident = MemoPeer { slab_id: SlabId(7), status: MemoPeeringStatus::Resident };
    assert_eq!(updates, vec![(a, resident), (b, resident)]);
    let other = MemoRefHead::Subject { subject_id: a.subject_id, head: vec![b] };
    let (updates2, taken2) = apply_received_seed(&mut net, &other, SlabId(8), SlabId(1));
    assert!(!taken2);
    assert_eq!(updates2.len(), 1);
    assert!(!net.apply_root_index_seed(&other, SlabId(2)));
}

#[test]
fn causal_memo_iter_gives_each_ancestor_once_descendants_first() {
    let mut slab = Slab::new_with_id(SlabId(1));
    let s = record(1);
    let a = slab.new_memo(s, MemoRefHead::Null, MemoBody::Edit(values(&[("k", "a")])));
    let b = slab.new_memo(s, a.to_head(), MemoBody::Edit(values(&[("k", "b")])));
    let c = slab.new_memo(s, b.to_head(), MemoBody::Edit(values(&[("k", "c")])));
    let d = slab.new_memo(s, b.to_head(), MemoBody::Edit(values(&[("k", "d")])));
    let e = slab.new_memo(s, c.to_head(), MemoBody::Edit(values(&[("k", "e")])));
    let f = slab.new_memo(s, d.to_head(), MemoBody::Edit(values(&[("k", "f")])));
    let g = slab.new_memo(s, MemoRefHead::Subject { subject_id: s, head: vec![e, f] }, MemoBody::Edit(values(&[("k", "g")])));
    let mut it = g.to_head().causal_memo_iter(&slab);
    let mut ids = Vec::new();
    while let Some(r) = it.next(&slab) {
        ids.push(r.unwrap().id);
    }
    assert_eq!(ids, vec![g.memo_id, e.memo_id, c.memo_id, f.memo_id, d.memo_id, b.memo_id, a.memo_id]);
}

#[test]
fn causal_memo_iter_reports_a_memo_the_slab_lacks() {
    let slab = Slab::new_with_id(SlabId(1));
    let missing = MemoRef { memo_id: 4, subject_id: record(1) };
    let mut it = unbase::causal::CausalMemoIter::from_memoref(&missing, &slab);
    assert_eq!(it.next(&slab).map(|r| r.map(|m| m.id)), Some(Err(RetrieveError::NotFound)));
    assert!(it.next(&slab).is_none());
}

#[test]
fn apply_memoref_keeps_the_maximal_memorefs() {
    let mut slab = Slab::new_with_id(SlabId(3));
    let a = slab.new_memo_basic_noparent(record(1), MemoBody::Edit(values(&[])));
    let b = slab.new_memo_basic_noparent(record(1), MemoBody::Edit(values(&[])));
    let c = slab.new_memo_basic_noparent(record(1), MemoBody::Edit(values(&[])));
    let merged = MemoRefHead::Subject { subject_id: record(1), head: vec![a, b] };
    let d = slab.new_memo_basic(record(1), merged, MemoBody::Edit(values(&[])));
    let mut head = MemoRefHead::Subject { subject_id: record(1), head: vec![a, b, c] };
    // d descends a and b, not c: the maximal memorefs are c and d
    assert_eq!(head.apply_memoref(&d, &slab), Ok(true));
    let mut ids = head.memo_ids();
    ids.sort();
    assert_eq!(ids, vec![c.memo_id, d.memo_id]);
}

#[test]
fn edge_set_insert_keeps_one_edge_per_slot() {
    let mut es = EdgeSet::empty();
    es.insert(3, MemoRefHead::Null);
    es.insert(5, MemoRefHead::Null);
    es.insert(3, MemoRef { memo_id: 1, subject_id: record(2) }.to_head());
    assert_eq!(es.len(), 2);
    assert_eq!(es.0[0].0, 3);
    assert_eq!(es.0[0].1.memo_ids(), vec![1]);
}

#[test]
fn route_packet_gives_destination_and_sender_presence() {
    let mut net = Network::new();
    let source = TransportAddress::UDP(TransportAddressUDP { address: "127.0.0.1:9".to_string() });
    assert_eq!(net.route_packet(SlabId(7), SlabId(0), &source).map(|(d, _)| d), Err(RouteError::NoRepresentativeSlab));
    net.register_local_slab(SlabId(3));
    let (dest, presence) = net.route_packet(SlabId(7), SlabId(0), &source).unwrap();
    assert_eq!(dest, SlabId(3));
    assert_eq!(presence.slab_id, SlabId(7));
    match &presence.address {
        TransportAddress::UDP(a) => assert_eq!(a.address, "127.0.0.1:9"),
        _ => panic!("the presence is not at the source address"),
    }
    assert_eq!(presence.liveness, TransportLiveness::Unknown);
    assert_eq!(net.route_packet(SlabId(7), SlabId(9), &source).map(|(d, _)| d), Err(RouteError::DestinationNotFound));
}
