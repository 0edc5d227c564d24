use unbase::buffer::{HeadBufElement, SlabBuf, SlabPresenceBufElement};
use unbase::network::{Transmitter, TransmitterKind, TransportAddress, TransportAddressUDP, TransportLiveness};
use unbase::slab::{SlabId, SlabPresence, SubjectId};
use unbase::slabref::{SlabRef, SlabRefs};

fn presence(address: TransportAddress, liveness: TransportLiveness) -> SlabPresenceBufElement<SubjectId, u64> {
    SlabPresenceBufElement { address, liveness, latest_clock: HeadBufElement::Null }
}

fn udp(a: &str) -> TransportAddress {
    TransportAddress::UDP(TransportAddressUDP { address: a.to_string() })
}

#[test]
fn slabref_apply_presence_adds_and_removes_channels() {
    let mut r = SlabRef::new(SlabId(2));
    assert_eq!(r.channel_count(), 0);
    assert_eq!(r.id(), SlabId(2));

    let connect = |s: &SlabId, _a: &TransportAddress| Some((Transmitter::new_dynamic(*s), TransportAddress::Local));
    assert!(r.apply_presence(&vec![presence(udp("10.0.0.1:1"), TransportLiveness::Available)], connect));
    assert_eq!(r.channel_count(), 1);
    assert_eq!(r.channels[0].tx.to_slab_id, SlabId(2));
    assert_eq!(r.channels[0].tx.kind, TransmitterKind::Dynamic);
    assert!(matches!(r.get_return_address(), TransportAddress::Local));
    assert!(matches!(&r.channels[0].address, TransportAddress::UDP(u) if u.address == "10.0.0.1:1"));

    // a channel at that address is there already: nothing changes
    assert!(!r.apply_presence(&vec![presence(udp("10.0.0.1:1"), TransportLiveness::Available)], connect));
    assert_eq!(r.channel_count(), 1);

    // another address: a second channel
    assert!(r.apply_presence(&vec![presence(udp("10.0.0.9:1"), TransportLiveness::Available)], connect));
    assert_eq!(r.channel_count(), 2);
    assert!(matches!(&r.channels[1].address, TransportAddress::UDP(u) if u.address == "10.0.0.9:1"));

    // going away at an address without a channel: nothing changes
    assert!(!r.apply_presence(&vec![presence(udp("10.0.0.5:1"), TransportLiveness::Unavailable)], connect));
    assert_eq!(r.channel_count(), 2);

    // going away: the channel at that address is removed, the other stays
    assert!(r.apply_presence(&vec![presence(udp("10.0.0.9:1"), TransportLiveness::Unavailable)], connect));
    assert_eq!(r.channel_count(), 1);
    assert!(matches!(&r.channels[0].address, TransportAddress::UDP(u) if u.address == "10.0.0.1:1"));
    assert!(r.apply_presence(&vec![presence(udp("10.0.0.1:1"), TransportLiveness::Unavailable)], connect));
    assert_eq!(r.channel_count(), 0);

    // no transport reaches it: nothing changes
    let unreachable = |_s: &SlabId, _a: &TransportAddress| None;
    assert!(!r.apply_presence(&vec![presence(udp("10.0.0.1:1"), TransportLiveness::Available)], unreachable));
    assert_eq!(r.channel_count(), 0);
}

#[test]
fn slabbuf_from_slabref_lists_channels() {
    let mut r = SlabRef::new(SlabId(3));
    let connect = |s: &SlabId, _a: &TransportAddress| Some((Transmitter::new_local(*s), TransportAddress::Local));
    r.apply_presence(&vec![presence(udp("1.2.3.4:5"), TransportLiveness::Available)], connect);
    let buf: SlabBuf<SubjectId, u64> = SlabBuf::from_slabref(&r);
    assert_eq!(buf.presence.len(), 1);
    assert!(matches!(&buf.presence[0].address, TransportAddress::UDP(u) if u.address == "1.2.3.4:5"));
    assert_eq!(buf.presence[0].liveness, TransportLiveness::Available);
    assert!(matches!(buf.presence[0].latest_clock, HeadBufElement::Null));
    let empty: SlabBuf<SubjectId, u64> = SlabBuf::from_slabref(&SlabRef::new(SlabId(4)));
    assert!(empty.presence.is_empty());
}

#[test]
fn slabrefs_keep_one_reference_per_slab() {
    let mut refs = SlabRefs::new();
    let connect = |s: &SlabId, _a: &TransportAddress| Some((Transmitter::new_dynamic(*s), TransportAddress::Local));
    // first heard of: made, to be saved
    assert_eq!(refs.get_slabref(SlabId(5), None, connect), (0, true));
    assert_eq!(refs.get(0).id(), SlabId(5));
    assert_eq!(refs.get(0).channel_count(), 0);
    // with a presence: a channel is added, to be saved
    let here = vec![SlabPresence { slab_id: SlabId(5), address: udp("1.1.1.1:1"), liveness: TransportLiveness::Available }];
    assert_eq!(refs.get_slabref(SlabId(5), Some(&here), connect), (0, true));
    assert_eq!(refs.get(0).channel_count(), 1);
    // nothing new: nothing to save
    assert_eq!(refs.get_slabref(SlabId(5), None, connect), (0, false));
    assert_eq!(refs.get_slabref(SlabId(5), Some(&here), connect), (0, false));
    // another slab, unreachable: made, without channels
    let unreachable = |_s: &SlabId, _a: &TransportAddress| None;
    let there = vec![SlabPresence { slab_id: SlabId(6), address: udp("2.2.2.2:2"), liveness: TransportLiveness::Available }];
    assert_eq!(refs.get_slabref(SlabId(6), Some(&there), unreachable), (1, true));
    assert_eq!(refs.get(1).channel_count(), 0);
    assert_eq!(refs.get(0).channel_count(), 1);
}
