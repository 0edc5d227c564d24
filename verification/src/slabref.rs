use vstd::prelude::*;

use crate::buffer::{HeadBufElement, SlabBuf, SlabPresenceBufElement};
use crate::slab::{MemoId, SubjectId};
use crate::memorefhead::{HeadView, MemoRefHead};
use crate::network::{AddressView, Transmitter, TransmitterKind, TransportAddress, TransportLiveness};
use crate::slab::{SlabId, SlabPresence};

verus! {

/// A way of reaching a slab: the address it is reached at, the address at
/// which it answers, whether it is expected to be reachable, the transmitter
/// that sends to it, and the latest clock heard from it.
#[derive(Debug)]
pub struct SlabChannel {
    pub address: TransportAddress,
    pub return_address: TransportAddress,
    pub liveness: TransportLiveness,
    pub tx: Transmitter,
    pub latest_clock: MemoRefHead,
}

/// The mathematical value of a `SlabChannel`.
pub struct ChannelView {
    pub address: AddressView,
    pub return_address: AddressView,
    pub liveness: TransportLiveness,
    pub tx_slab: SlabId,
    pub tx_kind: TransmitterKind,
    pub latest_clock: HeadView,
}

impl View for SlabChannel {
    type V = ChannelView;

    open spec fn view(&self) -> ChannelView {
        ChannelView {
            address: self.address@,
            return_address: self.return_address@,
            liveness: self.liveness,
            tx_slab: self.tx.to_slab_id,
            tx_kind: self.tx.kind,
            latest_clock: self.latest_clock@,
        }
    }
}

/// What a connection attempt gave: the slab and kind of the transmitter, and
/// the return address; nothing when the slab could not be reached.
pub type ConnectView = Option<(SlabId, TransmitterKind, AddressView)>;

/// The view of what a connection attempt returned.
pub open spec fn connect_view(o: Option<(Transmitter, TransportAddress)>) -> ConnectView {
    match o {
        Some((tx, ra)) => Some((tx.to_slab_id, tx.kind, ra@)),
        None => None,
    }
}

/// A call of `f` for slab `s` at an address whose view is `a` may have given
/// what `out` describes.
pub open spec fn connect_gave<F: Fn(&SlabId, &TransportAddress) -> Option<(Transmitter, TransportAddress)>>(
    f: F,
    s: SlabId,
    a: AddressView,
    out: ConnectView,
) -> bool {
    exists|o: Option<(Transmitter, TransportAddress)>, x: TransportAddress|
        #![trigger f.ensures((&s, &x), o)]
        x@ == a && f.ensures((&s, &x), o) && connect_view(o) == out
}

/// Presence `i` of `ps` connects: its slab is available and, once the
/// presences before it have been applied to `chs`, no channel is at its address.
pub open spec fn connection_made(
    chs: Seq<ChannelView>,
    ps: Seq<(AddressView, TransportLiveness)>,
    outs: Seq<ConnectView>,
    i: int,
) -> bool {
    &&& ps[i].1 == TransportLiveness::Available
    &&& first_at(presences_applied(chs, ps.take(i), outs.take(i)).0, ps[i].0) < 0
}

/// `outs` are the results of the connection attempts that applying `ps` to
/// `chs` makes: for each presence that connects, what `f` may have given for
/// slab `s` at its address (a transmitter or nothing); for the others, nothing.
pub open spec fn outs_fit<F: Fn(&SlabId, &TransportAddress) -> Option<(Transmitter, TransportAddress)>>(
    f: F,
    s: SlabId,
    chs: Seq<ChannelView>,
    ps: Seq<(AddressView, TransportLiveness)>,
    outs: Seq<ConnectView>,
) -> bool {
    &&& outs.len() == ps.len()
    &&& forall|i: int|
        #![trigger outs[i]]
        0 <= i < outs.len() ==> if connection_made(chs, ps, outs, i) {
            connect_gave(f, s, ps[i].0, outs[i])
        } else {
            outs[i] is None
        }
}

/// Channel `i` of `chs` is the first at address `a`.
pub open spec fn is_first_at(chs: Seq<ChannelView>, a: AddressView, i: int) -> bool {
    &&& 0 <= i < chs.len()
    &&& chs[i].address == a
    &&& forall|k: int| 0 <= k < i ==> (#[trigger] chs[k]).address != a
}

/// The position of the first channel of `chs` at address `a`; -1 when there is none.
pub open spec fn first_at(chs: Seq<ChannelView>, a: AddressView) -> int {
    if exists|i: int| #[trigger] is_first_at(chs, a, i) {
        choose|i: int| #[trigger] is_first_at(chs, a, i)
    } else {
        -1
    }
}

/// The channels, and whether anything changed, after presences `ps` (address
/// and liveness) have been applied in order to channels `chs`, where `outs[i]`
/// is what the connection attempt for presence `i` gave. A presence looks for
/// the first channel at its address: it removes that channel when the slab is
/// going away there, and leaves it otherwise. With no channel at the address,
/// a presence of an available slab connects to it and, when that succeeds,
/// adds a channel.
pub open spec fn presences_applied(
    chs: Seq<ChannelView>,
    ps: Seq<(AddressView, TransportLiveness)>,
    outs: Seq<ConnectView>,
) -> (Seq<ChannelView>, bool)
    decreases ps.len(),
{
    if ps.len() == 0 {
        (chs, false)
    } else {
        let (prev, applied) = presences_applied(chs, ps.drop_last(), outs.take(ps.len() - 1));
        let p = ps.last();
        let j = first_at(prev, p.0);
        if j >= 0 {
            if p.1 == TransportLiveness::Unavailable {
                (prev.remove(j), true)
            } else {
                (prev, applied)
            }
        } else if p.1 == TransportLiveness::Available {
            match outs[ps.len() - 1] {
                Some((s, k, ra)) => (
                    prev.push(
                        ChannelView {
                            address: p.0,
                            return_address: ra,
                            liveness: p.1,
                            tx_slab: s,
                            tx_kind: k,
                            latest_clock: HeadView::Null,
                        },
                    ),
                    true,
                ),
                None => (prev, applied),
            }
        } else {
            (prev, applied)
        }
    }
}

/// Whether two addresses are the same.
pub fn same_address(a: &TransportAddress, b: &TransportAddress) -> (r: bool)
    ensures
        r == (a@ == b@),
{
    match (a, b) {
        (TransportAddress::Blackhole, TransportAddress::Blackhole) => true,
        (TransportAddress::Local, TransportAddress::Local) => true,
        (TransportAddress::UDP(x), TransportAddress::UDP(y)) => x.address == y.address,
        _ => false,
    }
}

/// The address and liveness of each presence element.
pub open spec fn presence_views<E, M>(bufs: Seq<SlabPresenceBufElement<E, M>>) -> Seq<(AddressView, TransportLiveness)> {
    bufs.map_values(|b: SlabPresenceBufElement<E, M>| (b.address@, b.liveness))
}

/// A slab as another slab knows it: its id and its channels.
#[derive(Debug)]
pub struct SlabRef {
    pub slab_id: SlabId,
    pub channels: Vec<SlabChannel>,
}

impl SlabRef {
    /// The channels, by value.
    pub open spec fn channel_views(&self) -> Seq<ChannelView> {
        self.channels@.map_values(|c: SlabChannel| c@)
    }

    /// A reference to slab `slab_id`, with no channel yet.
    pub fn new(slab_id: SlabId) -> (r: SlabRef)
        ensures
            r.slab_id == slab_id,
            r.channel_views() == Seq::<ChannelView>::empty(),
    {
        let r = SlabRef { slab_id, channels: Vec::new() };
        proof {
            assert(r.channel_views() =~= Seq::<ChannelView>::empty());
        }
        r
    }

    /// The id of the slab.
    pub fn id(&self) -> (r: SlabId)
        ensures
            r == self.slab_id,
    {
        self.slab_id
    }

    /// The number of channels.
    pub fn channel_count(&self) -> (r: usize)
        ensures
            r == self.channels@.len(),
    {
        self.channels.len()
    }

    /// The return address of the first channel.
    pub fn get_return_address(&self) -> (r: TransportAddress)
        requires
            self.channels@.len() > 0,
        ensures
            r@ == self.channels@[0].return_address@,
    {
        self.channels[0].return_address.clone_address()
    }

    /// Applies presences to the channels, in order (see `presences_applied`);
    /// `connect` makes the transmitter and return address for a slab at an
    /// address, when it can. Returns whether anything changed.
    pub fn apply_presence<E, M, F: Fn(&SlabId, &TransportAddress) -> Option<(Transmitter, TransportAddress)>>(
        &mut self,
        presence_bufs: &Vec<SlabPresenceBufElement<E, M>>,
        connect: F,
    ) -> (r: bool)
        requires
            forall|s: SlabId, a: TransportAddress| connect.requires((&s, &a)),
        ensures
            final(self).slab_id == old(self).slab_id,
            exists|outs: Seq<ConnectView>|
                {
                    &&& outs_fit(connect, old(self).slab_id, old(self).channel_views(), presence_views(presence_bufs@), outs)
                    &&& presences_applied(old(self).channel_views(), presence_views(presence_bufs@), outs) == (
                    final(self).channel_views(),
                    r,
                )
                },
    {
        let n = presence_bufs.len();
        let mut applied = false;
        let mut i: usize = 0;
        let ghost mut outs: Seq<ConnectView> = Seq::empty();
        proof {
            assert(presence_views(presence_bufs@).take(0) =~= Seq::<(AddressView, TransportLiveness)>::empty());
        }
        while i < n
            invariant
                n == presence_bufs@.len(),
                i <= n,
                self.slab_id == old(self).slab_id,
                forall|s: SlabId, a: TransportAddress| connect.requires((&s, &a)),
                outs.len() == i,
                forall|k: int|
                    #![trigger outs[k]]
                    0 <= k < outs.len() ==> if connection_made(old(self).channel_views(), presence_views(presence_bufs@), outs, k) {
                        connect_gave(connect, old(self).slab_id, presence_views(presence_bufs@)[k].0, outs[k])
                    } else {
                        outs[k] is None
                    },
                presences_applied(old(self).channel_views(), presence_views(presence_bufs@).take(i as int), outs) == (
                    self.channel_views(),
                    applied,
                ),
            decreases n - i,
        {
            let ghost before = self.channel_views();
            let ghost ps = presence_views(presence_bufs@);
            let p = &presence_bufs[i];
            let ghost mut out: ConnectView = None;
            let nc = self.channels.len();
            let mut j: usize = 0;
            while j < nc && !same_address(&self.channels[j].address, &p.address)
                invariant
                    nc == self.channels@.len(),
                    j <= nc,
                    before == self.channel_views(),
                    p == presence_bufs@[i as int],
                    forall|k: int| 0 <= k < j ==> (#[trigger] before[k]).address != p.address@,
                decreases nc - j,
            {
                proof {
                    assert(before[j as int] == self.channels@[j as int]@);
                }
                j = j + 1;
            }
            proof {
                if j < nc {
                    assert(before[j as int] == self.channels@[j as int]@);
                    assert(is_first_at(before, p.address@, j as int));
                    let c = choose|c: int| #[trigger] is_first_at(before, p.address@, c);
                    if c < j {
                        assert(before[c].address != p.address@);
                    }
                    if j < c {
                        assert(before[j as int].address != p.address@);
                    }
                    assert(first_at(before, p.address@) == j);
                } else {
                    assert forall|c: int| !#[trigger] is_first_at(before, p.address@, c) by {
                        if 0 <= c < before.len() {
                            assert(before[c].address != p.address@);
                        }
                    }
                    assert(first_at(before, p.address@) == -1);
                }
            }
            if j < nc {
                if p.liveness == TransportLiveness::Unavailable {
                    self.channels.remove(j);
                    applied = true;
                    proof {
                        assert(self.channel_views() =~= before.remove(j as int));
                    }
                }
            } else if p.liveness == TransportLiveness::Available {
                let got = connect(&self.slab_id, &p.address);
                proof {
                    out = connect_view(got);
                    assert(connect_gave(connect, old(self).slab_id, p.address@, out)) by {
                        let x = p.address;
                        assert(x@ == p.address@ && connect.ensures((&old(self).slab_id, &x), got) && connect_view(got) == out);
                    }
                }
                match got {
                    Some((tx, return_address)) => {
                        let ghost txs = tx.to_slab_id;
                        let ghost txk = tx.kind;
                        let ghost rav = return_address@;
                        proof {
                            out = Some((txs, txk, rav));
                        }
                        let ghost o = Some((tx, return_address));
                        proof {
                            assert(o == got);
                        }
                        self.channels.push(
                            SlabChannel {
                                address: p.address.clone_address(),
                                return_address,
                                liveness: p.liveness,
                                tx,
                                latest_clock: MemoRefHead::Null,
                            },
                        );
                        applied = true;
                        proof {
                            assert(connect_view(o) == out);
                            assert(self.channel_views() =~= before.push(
                                ChannelView {
                                    address: ps[i as int].0,
                                    return_address: rav,
                                    liveness: ps[i as int].1,
                                    tx_slab: txs,
                                    tx_kind: txk,
                                    latest_clock: HeadView::Null,
                                },
                            ));
                        }
                    },
                    None => {},
                }
            }
            proof {
                let outs2 = outs.push(out);
                assert(ps.take(i + 1).drop_last() =~= ps.take(i as int));
                assert(outs2.take(i as int) =~= outs);
                assert(ps.take(i + 1).last() == ps[i as int]);
                let chs0 = old(self).channel_views();
                assert(presence_views(presence_bufs@)[i as int] == ps[i as int]);
                assert(ps[i as int].0 == p.address@ && ps[i as int].1 == p.liveness);
                assert(outs2.take(i as int) =~= outs);
                assert(connection_made(chs0, ps, outs2, i as int) == (j >= nc && p.liveness == TransportLiveness::Available));
                assert forall|k: int|
                    #![trigger outs2[k]]
                    0 <= k < outs2.len() implies if connection_made(chs0, ps, outs2, k) {
                        connect_gave(connect, old(self).slab_id, ps[k].0, outs2[k])
                    } else {
                        outs2[k] is None
                    } by {
                    if k < i {
                        assert(outs2[k] == outs[k]);
                        assert(outs2.take(k) =~= outs.take(k));
                        assert(connection_made(chs0, ps, outs2, k) == connection_made(chs0, ps, outs, k));
                    }
                }
                outs = outs2;
            }
            i = i + 1;
        }
        proof {
            assert(presence_views(presence_bufs@).take(n as int) =~= presence_views(presence_bufs@));
        }
        applied
    }
}

/// The address and liveness of each presence.
pub open spec fn presence_list_views(ps: Seq<SlabPresence>) -> Seq<(AddressView, TransportLiveness)> {
    ps.map_values(|p: SlabPresence| (p.address@, p.liveness))
}

/// Presences as buffer elements (without a clock), for `apply_presence`.
fn presence_elements(ps: &Vec<SlabPresence>) -> (r: Vec<SlabPresenceBufElement<SubjectId, MemoId>>)
    ensures
        presence_views(r@) == presence_list_views(ps@),
{
    let mut r: Vec<SlabPresenceBufElement<SubjectId, MemoId>> = Vec::new();
    let mut i: usize = 0;
    while i < ps.len()
        invariant
            i <= ps@.len(),
            presence_views(r@) == presence_list_views(ps@.take(i as int)),
        decreases ps@.len() - i,
    {
        let p = &ps[i];
        let ghost r0 = r@;
        let e = SlabPresenceBufElement { address: p.address.clone_address(), liveness: p.liveness, latest_clock: HeadBufElement::Null };
        let ghost ev = (e.address@, e.liveness);
        r.push(e);
        proof {
            assert(ps@.take(i + 1) =~= ps@.take(i as int).push(ps@[i as int]));
            assert(presence_views(r@) =~= presence_views(r0).push(ev));
            assert(presence_views(r@) =~= presence_list_views(ps@.take(i + 1)));
        }
        i = i + 1;
    }
    proof {
        assert(ps@.take(ps@.len() as int) =~= ps@);
    }
    r
}

/// The slab references that a slab keeps: one for each slab it has heard of.
pub struct SlabRefs {
    refs: Vec<SlabRef>,
}

impl SlabRefs {
    /// The slabs referred to, in the order they were first heard of.
    pub closed spec fn ids(&self) -> Seq<SlabId> {
        self.refs@.map_values(|r: SlabRef| r.slab_id)
    }

    /// The channels of the reference at position `i`.
    pub closed spec fn channels_at(&self, i: int) -> Seq<ChannelView> {
        self.refs@[i].channel_views()
    }

    /// The channels of the reference at position `i` when slab `s` has one,
    /// else none.
    pub open spec fn prior_channels(&self, i: int, s: SlabId) -> Seq<ChannelView> {
        if self.ids().contains(s) {
            self.channels_at(i)
        } else {
            Seq::<ChannelView>::empty()
        }
    }

    /// No slab is referred to twice.
    pub closed spec fn wf(&self) -> bool {
        forall|i: int, j: int| 0 <= i < j < self.refs@.len() ==> (#[trigger] self.refs@[i]).slab_id != (#[trigger] self.refs@[j]).slab_id
    }

    /// One reference per slab: two positions that hold the same slab are the
    /// same position, so asking `get_slabref` twice for a slab gives the same
    /// reference.
    pub proof fn lemma_one_reference_per_slab(&self, i: int, j: int)
        requires
            self.wf(),
            0 <= i < self.ids().len(),
            0 <= j < self.ids().len(),
            self.ids()[i] == self.ids()[j],
        ensures
            i == j,
    {
        assert(self.ids()[i] == self.refs@[i].slab_id);
        assert(self.ids()[j] == self.refs@[j].slab_id);
        if i < j {
            assert(self.refs@[i].slab_id != self.refs@[j].slab_id);
        } else if j < i {
            assert(self.refs@[j].slab_id != self.refs@[i].slab_id);
        }
    }

    /// No slab references yet.
    pub fn new() -> (r: SlabRefs)
        ensures
            r.wf(),
            r.ids() == Seq::<SlabId>::empty(),
    {
        let r = SlabRefs { refs: Vec::new() };
        proof {
            assert(r.ids() =~= Seq::<SlabId>::empty());
        }
        r
    }

    /// The reference at position `i`.
    pub fn get(&self, i: usize) -> (r: &SlabRef)
        requires
            i < self.ids().len(),
        ensures
            r.slab_id == self.ids()[i as int],
            r.channel_views() == self.channels_at(i as int),
    {
        &self.refs[i]
    }

    /// The reference to slab `slab_id`, made (without channels) when there is
    /// none yet, with the given presences, all of that slab, applied to it.
    /// Returns its position, and whether it was made or changed (and so
    /// should be saved).
    pub fn get_slabref<F: Fn(&SlabId, &TransportAddress) -> Option<(Transmitter, TransportAddress)>>(
        &mut self,
        slab_id: SlabId,
        optional_presence: Option<&Vec<SlabPresence>>,
        connect: F,
    ) -> (r: (usize, bool))
        requires
            old(self).wf(),
            optional_presence matches Some(ps) ==> forall|k: int| 0 <= k < ps@.len() ==> (#[trigger] ps@[k]).slab_id == slab_id,
            forall|s: SlabId, a: TransportAddress| connect.requires((&s, &a)),
        ensures
            final(self).wf(),
            old(self).ids().contains(slab_id) ==> final(self).ids() == old(self).ids(),
            !old(self).ids().contains(slab_id) ==> final(self).ids() == old(self).ids().push(slab_id),
            r.0 < final(self).ids().len(),
            final(self).ids()[r.0 as int] == slab_id,
            forall|i: int| 0 <= i < old(self).ids().len() && i != r.0 ==> final(self).channels_at(i) == old(self).channels_at(i),
            optional_presence is None ==> final(self).channels_at(r.0 as int) == old(self).prior_channels(r.0 as int, slab_id)
                && r.1 == !old(self).ids().contains(slab_id),
            optional_presence matches Some(ps) ==> exists|outs: Seq<ConnectView>|
                #![trigger presences_applied(old(self).prior_channels(r.0 as int, slab_id), presence_list_views(ps@), outs)]
                {
                    &&& outs_fit(connect, slab_id, old(self).prior_channels(r.0 as int, slab_id), presence_list_views(ps@), outs)
                    &&& presences_applied(old(self).prior_channels(r.0 as int, slab_id), presence_list_views(ps@), outs).0
                        == final(self).channels_at(r.0 as int)
                    &&& r.1 == (!old(self).ids().contains(slab_id) || presences_applied(
                        old(self).prior_channels(r.0 as int, slab_id),
                        presence_list_views(ps@),
                        outs,
                    ).1)
                },
    {
        let ghost ids0 = self.ids();
        let n = self.refs.len();
        let mut i: usize = 0;
        while i < n && self.refs[i].slab_id != slab_id
            invariant
                n == self.refs@.len(),
                ids0 == self.ids(),
                i <= n,
                forall|k: int| 0 <= k < i ==> self.refs@[k].slab_id != slab_id,
            decreases n - i,
        {
            i = i + 1;
        }
        let created = i == n;
        if created {
            proof {
                assert(!ids0.contains(slab_id)) by {
                    if ids0.contains(slab_id) {
                        let k = choose|k: int| 0 <= k < ids0.len() && ids0[k] == slab_id;
                        assert(self.refs@[k].slab_id == slab_id);
                    }
                }
            }
            self.refs.push(SlabRef::new(slab_id));
            proof {
                assert(self.ids() =~= ids0.push(slab_id));
            }
        } else {
            proof {
                assert(self.refs@[i as int].slab_id == slab_id);
                assert(ids0[i as int] == slab_id);
                assert(ids0.contains(slab_id));
            }
        }
        let ghost refs1 = self.refs@;
        let ghost before = refs1[i as int].channel_views();
        let mut changed = false;
        let ghost cf = connect;
        let ghost mut outs_w: Seq<ConnectView> = Seq::empty();
        proof {
            assert(old(self).prior_channels(i as int, slab_id) == before);
        }
        match optional_presence {
            Some(ps) => {
                let elements = presence_elements(ps);
                let mut target = self.refs.remove(i);
                proof {
                    assert(target == refs1[i as int]);
                }
                changed = target.apply_presence(&elements, connect);
                let ghost tv = target.channel_views();
                proof {
                    let outs = choose|outs: Seq<ConnectView>|
                        #![trigger presences_applied(before, presence_views(elements@), outs)]
                        {
                            &&& outs_fit(cf, slab_id, before, presence_views(elements@), outs)
                            &&& presences_applied(before, presence_views(elements@), outs) == (tv, changed)
                        };
                    assert(presence_views(elements@) == presence_list_views(ps@));
                    assert(outs_fit(cf, slab_id, before, presence_list_views(ps@), outs));
                    assert(presences_applied(before, presence_list_views(ps@), outs) == (tv, changed));
                    outs_w = outs;
                }
                self.refs.insert(i, target);
                proof {
                    assert(self.refs@ =~= refs1.update(i as int, target));
                    assert(self.refs@[i as int].channel_views() == tv);
                    let created_spec = !old(self).ids().contains(slab_id);
                    assert(created == created_spec);
                    assert(old(self).prior_channels(i as int, slab_id) == before);
                    assert(presences_applied(old(self).prior_channels(i as int, slab_id), presence_list_views(ps@), outs_w).0 == self.channels_at(i as int));
                    assert((created || changed) == (created_spec || presences_applied(old(self).prior_channels(i as int, slab_id), presence_list_views(ps@), outs_w).1));
                }
            },
            None => {},
        }
        proof {
            assert(self.ids() =~= refs1.map_values(|r: SlabRef| r.slab_id));
            assert forall|a: int, b: int| 0 <= a < b < self.refs@.len() implies (#[trigger] self.refs@[a]).slab_id != (#[trigger] self.refs@[b]).slab_id by {
                assert(self.refs@[a].slab_id == self.ids()[a]);
                assert(self.refs@[b].slab_id == self.ids()[b]);
                assert(refs1[a].slab_id == refs1.map_values(|r: SlabRef| r.slab_id)[a]);
                assert(refs1[b].slab_id == refs1.map_values(|r: SlabRef| r.slab_id)[b]);
                if created {
                    if b == i {
                        assert(!ids0.contains(slab_id));
                        assert(ids0[a] == refs1[a].slab_id);
                    }
                }
            }
        }
        let r = (i, created || changed);
        proof {
            match optional_presence {
                Some(ps) => {
                    assert(outs_fit(connect, slab_id, old(self).prior_channels(r.0 as int, slab_id), presence_list_views(ps@), outs_w));
                    assert(presences_applied(old(self).prior_channels(r.0 as int, slab_id), presence_list_views(ps@), outs_w).0
                        == self.channels_at(r.0 as int));
                    assert(r.1 == (!old(self).ids().contains(slab_id) || presences_applied(
                        old(self).prior_channels(r.0 as int, slab_id),
                        presence_list_views(ps@),
                        outs_w,
                    ).1));
                },
                None => {},
            }
        }
        r
    }
}

impl<E, M> SlabBuf<E, M> {
    /// The buffer of a slab reference: the address and liveness of each
    /// channel, without a clock.
    pub fn from_slabref(slabref: &SlabRef) -> (r: SlabBuf<E, M>)
        ensures
            r.presence@.len() == slabref.channels@.len(),
            forall|i: int|
                0 <= i < r.presence@.len() ==> {
                    &&& (#[trigger] r.presence@[i]).address@ == slabref.channels@[i].address@
                    &&& r.presence@[i].liveness == slabref.channels@[i].liveness
                    &&& r.presence@[i].latest_clock is Null
                },
    {
        let mut presence: Vec<SlabPresenceBufElement<E, M>> = Vec::new();
        let mut i: usize = 0;
        while i < slabref.channels.len()
            invariant
                i <= slabref.channels@.len(),
                presence@.len() == i,
                forall|k: int|
                    0 <= k < i ==> {
                        &&& (#[trigger] presence@[k]).address@ == slabref.channels@[k].address@
                        &&& presence@[k].liveness == slabref.channels@[k].liveness
                        &&& presence@[k].latest_clock is Null
                    },
            decreases slabref.channels@.len() - i,
        {
            let c = &slabref.channels[i];
            presence.push(
                SlabPresenceBufElement { address: c.address.clone_address(), liveness: c.liveness, latest_clock: HeadBufElement::Null },
            );
            i = i + 1;
        }
        SlabBuf { presence }
    }
}

} // verus!
