use vstd::prelude::*;

use crate::memorefhead::{HeadView, MemoRefHead};
use crate::network::{Network, TransportAddress, TransportLiveness};
use crate::error::StorageOpDeclined;
use crate::slab::{
    body_below, head_valid, BodyView, EdgeSet, Memo, MemoBody, MemoId, MemoPeer, MemoPeerList, MemoPeeringStatus, MemoRef,
    MemoView, Slab, SlabId, SlabPresence, SubjectId, SubjectType,
};

verus! {

/// How many peers a slab seeks for a memo before it stops sending it on:
/// five for a memo that takes part in peering, none for the others (which
/// would otherwise be routed in loops).
pub fn check_peering_target(memo: &Memo) -> (r: u8)
    ensures
        r == (if !(memo.body is MemoRequest || memo.body is Peering || memo.body is SlabPresence) {
            5u8
        } else {
            0u8
        }),
{
    if memo.does_peering() {
        5
    } else {
        0
    }
}

/// The presence that slab `slab_id` announces to a slab that reaches it
/// through `return_address` (the address that the other slab would recognize).
pub fn presence_for_origin(slab_id: SlabId, return_address: TransportAddress) -> (r: SlabPresence)
    ensures
        r.slab_id == slab_id,
        r.address@ == return_address@,
        r.liveness == TransportLiveness::Unknown,
{
    SlabPresence { slab_id, address: return_address, liveness: TransportLiveness::Unknown }
}

/// What a slab does with a memo that arrives from another slab.
#[derive(PartialEq, Eq, Structural, Clone, Copy, Debug)]
pub enum IncomingAction {
    /// The memo announces a slab together with a root index seed: the seed's
    /// memos are marked as resident on the sender, and the seed is applied.
    ApplyRootIndexSeed,
    /// The memo announces a slab without a seed: the slab answers with its own presence.
    ReplyWithPresence,
    /// Nothing to do.
    Nothing,
}

/// What to do with a memo with body `body` that arrived from another slab,
/// at slab `my_slab_id`. Peering memos, and requests for memos that another
/// slab makes, are not handled.
pub fn incoming_memo_action(body: &MemoBody, my_slab_id: SlabId) -> (r: IncomingAction)
    requires
        !(body is Peering),
        body matches MemoBody::MemoRequest(_, requester) ==> requester == my_slab_id,
    ensures
        body matches MemoBody::SlabPresence { seed, .. } ==> r == (if seed@ is Null {
            IncomingAction::ReplyWithPresence
        } else {
            IncomingAction::ApplyRootIndexSeed
        }),
        !(body is SlabPresence) ==> r == IncomingAction::Nothing,
{
    match body {
        MemoBody::SlabPresence { seed, .. } => {
            match seed {
                MemoRefHead::Null => IncomingAction::ReplyWithPresence,
                _ => IncomingAction::ApplyRootIndexSeed,
            }
        },
        _ => IncomingAction::Nothing,
    }
}

/// Acts on a root index seed that arrived from slab `origin` at slab
/// `my_slab_id`: gives, for each memoref of the seed in order, the origin as
/// a peer on which it is resident, and lets the network take the seed as its
/// root index seed when it holds none yet (see
/// `Network::apply_root_index_seed`); returns those peer updates and
/// whether the network took the seed.
pub fn apply_received_seed(net: &mut Network, seed: &MemoRefHead, origin: SlabId, my_slab_id: SlabId) -> (r: (
    Vec<(MemoRef, MemoPeer)>,
    bool,
))
    ensures
        r.0@.len() == seed@.refs().len(),
        forall|k: int|
            0 <= k < r.0@.len() ==> #[trigger] r.0@[k] == (seed@.refs()[k], MemoPeer {
                slab_id: origin,
                status: MemoPeeringStatus::Resident,
            }),
        r.1 == old(net).seed() is None,
        r.1 ==> final(net).seed() == Some((seed@, my_slab_id)),
        !r.1 ==> final(net).seed() == old(net).seed(),
        final(net).slabs() == old(net).slabs(),
        final(net).next_id() == old(net).next_id(),
{
    let n = seed.len();
    let mut updates: Vec<(MemoRef, MemoPeer)> = Vec::new();
    let mut i: usize = 0;
    while i < n
        invariant
            n == seed@.refs().len(),
            i <= n,
            updates@.len() == i,
            forall|k: int|
                0 <= k < i ==> #[trigger] updates@[k] == (seed@.refs()[k], MemoPeer {
                    slab_id: origin,
                    status: MemoPeeringStatus::Resident,
                }),
        decreases n - i,
    {
        updates.push((seed.ref_at(i), MemoPeer { slab_id: origin, status: MemoPeeringStatus::Resident }));
        i = i + 1;
    }
    let taken = net.apply_root_index_seed(seed, my_slab_id);
    (updates, taken)
}

/// Stores the memo with which a slab answers a presence that came without
/// a seed: an anonymous presence memo that descends the received memo and
/// carries the slab's own presence and root index seed.
pub fn presence_reply(slab: &mut Slab, received: &MemoRef, presence: SlabPresence, root_index_seed: MemoRefHead) -> (r: MemoRef)
    requires
        old(slab).wf(),
        old(slab).memos().len() < u64::MAX,
        crate::slab::ref_valid(old(slab).memos(), *received),
        head_valid(old(slab).memos(), root_index_seed@),
    ensures
        final(slab).wf(),
        final(slab).memos() == Slab::added(
            old(slab).memos(),
            SubjectId { id: 0, stype: SubjectType::Anonymous },
            received.spec_to_head(),
            BodyView::SlabPresence(presence@, root_index_seed@),
        ),
        r == (MemoRef { memo_id: old(slab).memos().len() as u64, subject_id: SubjectId { id: 0, stype: SubjectType::Anonymous } }),
{
    let parents = received.to_head();
    proof {
        assert(parents@.refs() =~= seq![*received]);
        assert forall|k: int| 0 <= k < root_index_seed@.refs().len() implies #[trigger] root_index_seed@.refs()[k].memo_id < old(slab).memos().len()
            && crate::slab::ref_valid(old(slab).memos(), root_index_seed@.refs()[k]) by {}
    }
    slab.new_memo(SubjectId::anonymous(), parents, MemoBody::SlabPresence { p: presence, seed: root_index_seed })
}

/// Whether a memo of subject `subject_id` goes to the subscribers of the
/// index as well as to those of its subject: only index nodes do.
pub fn notifies_index_subscribers(subject_id: &SubjectId) -> (r: bool)
    ensures
        r == (subject_id.stype == SubjectType::IndexNode),
{
    match subject_id.stype {
        SubjectType::IndexNode => true,
        _ => false,
    }
}

/// Calls `rand::random::<u64>()`: a value drawn from the thread's random
/// generator. Nothing is promised of it.
#[verifier::external_body]
fn random_u64() -> (r: u64) {
    rand::random::<u64>()
}

/// A new subject id of the given type, with an id drawn at random.
pub fn generate_subject_id(stype: SubjectType) -> (r: SubjectId)
    ensures
        r.stype == stype,
{
    SubjectId { id: random_u64(), stype }
}

/// Creates the first memo of a new system's root index: a fully
/// materialized, empty index node without parents.
pub struct SystemCreator;

impl SystemCreator {
    /// Stores the seed memo of the root index on `slab` and returns its head.
    pub fn generate_root_index_seed(slab: &mut Slab) -> (r: MemoRefHead)
        requires
            old(slab).wf(),
            old(slab).memos().len() < u64::MAX,
        ensures
            final(slab).wf(),
            final(slab).memos().len() == old(slab).memos().len() + 1,
            crate::slab::memos_extend(old(slab).memos(), final(slab).memos()),
            ({
                let m = final(slab).memos().last();
                &&& m.subject_id.stype == SubjectType::IndexNode
                &&& m.parents == HeadView::Null
                &&& m.body == BodyView::FullyMaterialized(
                    Seq::empty(),
                    Seq::empty(),
                    Seq::empty(),
                    SubjectType::IndexNode,
                )
                &&& r@ == HeadView::Subject(m.subject_id, seq![MemoRef { memo_id: old(slab).memos().len() as u64, subject_id: m.subject_id }])
            }),
    {
        let subject_id = generate_subject_id(SubjectType::IndexNode);
        let body = MemoBody::FullyMaterialized {
            v: crate::slab::ValueSet(Vec::new()),
            r: crate::slab::RelationSet(Vec::new()),
            e: crate::slab::EdgeSet(Vec::new()),
            t: SubjectType::IndexNode,
        };
        proof {
            let bv = body@;
            assert(bv matches BodyView::FullyMaterialized(v, r, e, t) && v =~= Seq::<(Seq<char>, Seq<char>)>::empty() && r =~= Seq::<(crate::slab::RelationSlotId, Option<SubjectId>)>::empty() && e =~= Seq::<(crate::slab::RelationSlotId, HeadView)>::empty() && t == SubjectType::IndexNode);
        }
        let memoref = slab.new_memo_basic_noparent(subject_id, body);
        memoref.to_head()
    }
}

/// Whether a slab holds the memo that a memoref names, or only knows of it.
#[derive(PartialEq, Eq, Structural, Clone, Copy, Debug)]
pub enum MemoResidency {
    Resident,
    Remote,
}

/// The subject that a peering memo names for a memo of subject `s`: none for
/// an anonymous memo.
pub open spec fn peering_subject(s: SubjectId) -> Option<SubjectId> {
    if s.stype == SubjectType::Anonymous {
        None
    } else {
        Some(s)
    }
}

/// The body of the memo with which slab `my_slab` tells the peers of memo `m`
/// how it holds that memo now.
pub open spec fn peering_body(m: MemoRef, my_slab: SlabId, status: MemoPeeringStatus) -> BodyView {
    BodyView::Peering(m.memo_id, peering_subject(m.subject_id), seq![MemoPeer { slab_id: my_slab, status }])
}

/// Stores an anonymous peering memo, descending `memoref`, that says that
/// this slab holds the memo with status `status`.
fn new_peering_memo(slab: &mut Slab, memoref: &MemoRef, status: MemoPeeringStatus) -> (r: MemoRef)
    requires
        old(slab).wf(),
        old(slab).memos().len() < u64::MAX,
        crate::slab::ref_valid(old(slab).memos(), *memoref),
    ensures
        final(slab).wf(),
        final(slab).spec_slab_id() == old(slab).spec_slab_id(),
        final(slab).memos() == Slab::added(
            old(slab).memos(),
            SubjectId { id: 0, stype: SubjectType::Anonymous },
            memoref.spec_to_head(),
            peering_body(*memoref, old(slab).spec_slab_id(), status),
        ),
        r == (MemoRef { memo_id: old(slab).memos().len() as u64, subject_id: SubjectId { id: 0, stype: SubjectType::Anonymous } }),
{
    let parents = memoref.to_head();
    let subject = if memoref.subject_id.is_anonymous() {
        None
    } else {
        Some(memoref.subject_id)
    };
    let mut peers: Vec<MemoPeer> = Vec::new();
    peers.push(MemoPeer { slab_id: slab.slab_id(), status });
    let body = MemoBody::Peering(memoref.memo_id, subject, MemoPeerList(peers));
    proof {
        assert(parents@.refs() =~= seq![*memoref]);
        assert(body@ == peering_body(*memoref, old(slab).spec_slab_id(), status));
    }
    slab.new_memo(SubjectId::anonymous(), parents, body)
}

/// Makes a memo that this slab only knew of resident again. When it was
/// remote, it is marked resident and a peering memo that says so is stored,
/// for the caller to send to the memo's peers; when it was resident already,
/// nothing changes.
pub fn residentize_memoref(slab: &mut Slab, residency: &mut MemoResidency, memoref: &MemoRef) -> (r: Option<MemoRef>)
    requires
        old(slab).wf(),
        old(slab).memos().len() < u64::MAX,
        crate::slab::ref_valid(old(slab).memos(), *memoref),
    ensures
        final(slab).wf(),
        *final(residency) == MemoResidency::Resident,
        *old(residency) == MemoResidency::Resident ==> r is None && final(slab).memos() == old(slab).memos(),
        *old(residency) == MemoResidency::Remote ==> {
            &&& r == Some(MemoRef { memo_id: old(slab).memos().len() as u64, subject_id: SubjectId { id: 0, stype: SubjectType::Anonymous } })
            &&& final(slab).memos() == Slab::added(
                old(slab).memos(),
                SubjectId { id: 0, stype: SubjectType::Anonymous },
                memoref.spec_to_head(),
                peering_body(*memoref, old(slab).spec_slab_id(), MemoPeeringStatus::Resident),
            )
        },
{
    match *residency {
        MemoResidency::Remote => {
            *residency = MemoResidency::Resident;
            Some(new_peering_memo(slab, memoref, MemoPeeringStatus::Resident))
        },
        MemoResidency::Resident => None,
    }
}

/// Lets this slab stop holding a memo, keeping only a reference to it. A
/// resident memo with no peers is kept (`InsufficientPeering`); one with
/// peers becomes remote, and a peering memo that says this slab still
/// participates is stored, for the caller to send to those peers. A memo that
/// is remote already stays so, and nothing is stored.
pub fn remotize_memoref(slab: &mut Slab, residency: &mut MemoResidency, memoref: &MemoRef, peer_count: usize) -> (r: Result<Option<MemoRef>, StorageOpDeclined>)
    requires
        old(slab).wf(),
        old(slab).memos().len() < u64::MAX,
        crate::slab::ref_valid(old(slab).memos(), *memoref),
    ensures
        final(slab).wf(),
        *old(residency) == MemoResidency::Remote ==> r == Ok::<Option<MemoRef>, StorageOpDeclined>(None)
            && *final(residency) == MemoResidency::Remote && final(slab).memos() == old(slab).memos(),
        *old(residency) == MemoResidency::Resident && peer_count == 0 ==> r == Err::<Option<MemoRef>, StorageOpDeclined>(
            StorageOpDeclined::InsufficientPeering,
        ) && *final(residency) == MemoResidency::Resident && final(slab).memos() == old(slab).memos(),
        *old(residency) == MemoResidency::Resident && peer_count > 0 ==> {
            &&& r == Ok::<Option<MemoRef>, StorageOpDeclined>(
                Some(MemoRef { memo_id: old(slab).memos().len() as u64, subject_id: SubjectId { id: 0, stype: SubjectType::Anonymous } }),
            )
            &&& *final(residency) == MemoResidency::Remote
            &&& final(slab).memos() == Slab::added(
                old(slab).memos(),
                SubjectId { id: 0, stype: SubjectType::Anonymous },
                memoref.spec_to_head(),
                peering_body(*memoref, old(slab).spec_slab_id(), MemoPeeringStatus::Participating),
            )
        },
{
    match *residency {
        MemoResidency::Remote => Ok(None),
        MemoResidency::Resident => {
            if peer_count == 0 {
                return Err(StorageOpDeclined::InsufficientPeering);
            }
            *residency = MemoResidency::Remote;
            Ok(Some(new_peering_memo(slab, memoref, MemoPeeringStatus::Participating)))
        },
    }
}

/// The slabs that body `b` refers to are all slab `my_slab`.
pub open spec fn body_slabs_local(b: BodyView, my_slab: SlabId) -> bool {
    match b {
        BodyView::Peering(_, _, peers) => forall|k: int| 0 <= k < peers.len() ==> (#[trigger] peers[k]).slab_id == my_slab,
        BodyView::MemoRequest(_, s) => s == my_slab,
        _ => true,
    }
}

/// The local reference to slab `slab_id`, at slab `my_slab`. Only the local
/// slab itself can be referred to so far.
pub fn localize_slabref(slab_id: SlabId, my_slab: SlabId) -> (r: SlabId)
    requires
        slab_id == my_slab,
    ensures
        r == my_slab,
{
    my_slab
}

/// A head as the receiving slab holds it. A memoref names a memo of the slab
/// that holds the memoref, so the head is a copy.
pub fn localize_head(head: &MemoRefHead) -> (r: MemoRefHead)
    ensures
        r@ == head@,
{
    head.clone_head()
}

/// Peers as slab `my_slab` holds them: each slab localized, each status kept.
pub fn localize_peerlist(peerlist: &MemoPeerList, my_slab: SlabId) -> (r: MemoPeerList)
    requires
        forall|k: int| 0 <= k < peerlist.0@.len() ==> (#[trigger] peerlist.0@[k]).slab_id == my_slab,
    ensures
        r.0@ == peerlist.0@,
{
    let mut v: Vec<MemoPeer> = Vec::new();
    let mut i: usize = 0;
    while i < peerlist.0.len()
        invariant
            i <= peerlist.0@.len(),
            v@ == peerlist.0@.take(i as int),
            forall|k: int| 0 <= k < peerlist.0@.len() ==> (#[trigger] peerlist.0@[k]).slab_id == my_slab,
        decreases peerlist.0@.len() - i,
    {
        let p = peerlist.0[i];
        v.push(MemoPeer { slab_id: localize_slabref(p.slab_id, my_slab), status: p.status });
        proof {
            assert(peerlist.0@.take(i + 1) =~= peerlist.0@.take(i as int).push(peerlist.0@[i as int]));
        }
        i = i + 1;
    }
    proof {
        assert(peerlist.0@.take(peerlist.0@.len() as int) =~= peerlist.0@);
    }
    MemoPeerList(v)
}

/// Edges as the receiving slab holds them: each head localized.
pub fn localize_edgeset(edgeset: &EdgeSet) -> (r: EdgeSet)
    ensures
        r@ == edgeset@,
{
    edgeset.clone_edges()
}

/// A memo body as slab `my_slab` holds it: heads and edges localized, peers
/// and the requesting slab localized, everything else copied. The slabs that
/// the body refers to must be `my_slab`.
pub fn localize_memobody(mb: &MemoBody, my_slab: SlabId) -> (r: MemoBody)
    requires
        body_slabs_local(mb@, my_slab),
    ensures
        r@ == mb@,
{
    match mb {
        MemoBody::SlabPresence { p, seed } => MemoBody::SlabPresence {
            p: SlabPresence { slab_id: p.slab_id, address: p.address.clone_address(), liveness: p.liveness },
            seed: localize_head(seed),
        },
        MemoBody::Relation(rs) => MemoBody::Relation(rs.clone_relations()),
        MemoBody::Edge(e) => MemoBody::Edge(localize_edgeset(e)),
        MemoBody::Edit(v) => MemoBody::Edit(v.clone_values()),
        MemoBody::FullyMaterialized { v, r, e, t } => MemoBody::FullyMaterialized {
            v: v.clone_values(),
            r: r.clone_relations(),
            e: localize_edgeset(e),
            t: *t,
        },
        MemoBody::PartiallyMaterialized { v, r, e, t } => MemoBody::PartiallyMaterialized {
            v: v.clone_values(),
            r: r.clone_relations(),
            e: localize_edgeset(e),
            t: *t,
        },
        MemoBody::Peering(memo_id, subject, peers) => MemoBody::Peering(*memo_id, *subject, localize_peerlist(peers, my_slab)),
        MemoBody::MemoRequest(ids, slab_id) => {
            let copy: Vec<MemoId> = ids.clone();
            proof {
                assert(copy@ =~= ids@);
            }
            MemoBody::MemoRequest(copy, localize_slabref(*slab_id, my_slab))
        },
    }
}

/// The task executor of a process.
pub struct Executor {}

impl Executor {
    /// An executor.
    pub fn new() -> (r: Executor) {
        Executor {}
    }
}

} // verus!
