use vstd::prelude::*;

use crate::error::RetrieveError;
use crate::memorefhead::{HeadView, MemoRefHead};
use crate::network::{AddressView, TransportAddress, TransportLiveness};
use crate::text::{decimal, decimal_string};

verus! {

/// Identifier of a memo within the slab that stores it.
pub type MemoId = u64;

/// Identifier of a relation slot of a subject.
pub type RelationSlotId = u8;

/// Identifier of a slab.
#[derive(PartialEq, Eq, Structural, Clone, Copy, Debug)]
pub struct SlabId(pub u32);

/// The kind of a subject.
#[derive(PartialEq, Eq, Structural, Clone, Copy, Debug)]
pub enum SubjectType {
    IndexNode,
    Record,
    Anonymous,
}

/// Identifier of a subject (an entity of the data model).
#[derive(PartialEq, Eq, Structural, Clone, Copy, Debug)]
pub struct SubjectId {
    pub id: u64,
    pub stype: SubjectType,
}

/// A reference to a memo: its id and the subject it belongs to.
#[derive(PartialEq, Eq, Structural, Clone, Copy, Debug)]
pub struct MemoRef {
    pub memo_id: MemoId,
    pub subject_id: SubjectId,
}

/// The values that a memo sets: key/value pairs, the first occurrence of a key wins.
#[derive(Debug)]
pub struct ValueSet(pub Vec<(String, String)>);

/// The relations that a memo sets: slot to related subject (or to nothing).
#[derive(Debug)]
pub struct RelationSet(pub Vec<(RelationSlotId, Option<SubjectId>)>);

/// The edges that a memo sets: slot to the head of the related subject.
#[derive(Debug)]
pub struct EdgeSet(pub Vec<(RelationSlotId, MemoRefHead)>);

/// How a slab holds a memo.
#[derive(PartialEq, Eq, Structural, Clone, Copy, Debug)]
pub enum MemoPeeringStatus {
    Resident,
    Participating,
    NonParticipating,
    Unknown,
}

/// A slab that holds (or knows of) a memo.
#[derive(PartialEq, Eq, Structural, Clone, Copy, Debug)]
pub struct MemoPeer {
    pub slab_id: SlabId,
    pub status: MemoPeeringStatus,
}

/// The peers of a memo.
#[derive(Debug)]
pub struct MemoPeerList(pub Vec<MemoPeer>);

/// A slab announcing where it can be reached.
#[derive(Debug)]
pub struct SlabPresence {
    pub slab_id: SlabId,
    pub address: TransportAddress,
    pub liveness: TransportLiveness,
}

/// The payload of a memo.
#[derive(Debug)]
pub enum MemoBody {
    SlabPresence { p: SlabPresence, seed: MemoRefHead },
    Relation(RelationSet),
    Edge(EdgeSet),
    Edit(ValueSet),
    FullyMaterialized { v: ValueSet, r: RelationSet, e: EdgeSet, t: SubjectType },
    PartiallyMaterialized { v: ValueSet, r: RelationSet, e: EdgeSet, t: SubjectType },
    Peering(MemoId, Option<SubjectId>, MemoPeerList),
    MemoRequest(Vec<MemoId>, SlabId),
}

/// An immutable message: a body, the memos it descends, and its subject.
#[derive(Debug)]
pub struct Memo {
    pub id: MemoId,
    pub subject_id: SubjectId,
    pub parents: MemoRefHead,
    pub body: MemoBody,
}

/// The mathematical value of a `SlabPresence`.
pub struct PresenceView {
    pub slab_id: SlabId,
    pub address: AddressView,
    pub liveness: TransportLiveness,
}

/// The mathematical value of a `MemoBody`.
pub enum BodyView {
    SlabPresence(PresenceView, HeadView),
    Relation(Seq<(RelationSlotId, Option<SubjectId>)>),
    Edge(Seq<(RelationSlotId, HeadView)>),
    Edit(Seq<(Seq<char>, Seq<char>)>),
    FullyMaterialized(
        Seq<(Seq<char>, Seq<char>)>,
        Seq<(RelationSlotId, Option<SubjectId>)>,
        Seq<(RelationSlotId, HeadView)>,
        SubjectType,
    ),
    PartiallyMaterialized(
        Seq<(Seq<char>, Seq<char>)>,
        Seq<(RelationSlotId, Option<SubjectId>)>,
        Seq<(RelationSlotId, HeadView)>,
        SubjectType,
    ),
    Peering(MemoId, Option<SubjectId>, Seq<MemoPeer>),
    MemoRequest(Seq<MemoId>, SlabId),
}

/// The mathematical value of a `Memo`.
pub struct MemoView {
    pub id: MemoId,
    pub subject_id: SubjectId,
    pub parents: HeadView,
    pub body: BodyView,
}

impl View for ValueSet {
    type V = Seq<(Seq<char>, Seq<char>)>;

    open spec fn view(&self) -> Seq<(Seq<char>, Seq<char>)> {
        self.0@.map_values(|kv: (String, String)| (kv.0@, kv.1@))
    }
}

impl View for RelationSet {
    type V = Seq<(RelationSlotId, Option<SubjectId>)>;

    open spec fn view(&self) -> Seq<(RelationSlotId, Option<SubjectId>)> {
        self.0@
    }
}

impl View for EdgeSet {
    type V = Seq<(RelationSlotId, HeadView)>;

    open spec fn view(&self) -> Seq<(RelationSlotId, HeadView)> {
        self.0@.map_values(|e: (RelationSlotId, MemoRefHead)| (e.0, e.1@))
    }
}

impl View for SlabPresence {
    type V = PresenceView;

    open spec fn view(&self) -> PresenceView {
        PresenceView { slab_id: self.slab_id, address: self.address@, liveness: self.liveness }
    }
}

impl View for MemoBody {
    type V = BodyView;

    open spec fn view(&self) -> BodyView {
        match self {
            MemoBody::SlabPresence { p, seed } => BodyView::SlabPresence(p@, seed@),
            MemoBody::Relation(r) => BodyView::Relation(r@),
            MemoBody::Edge(e) => BodyView::Edge(e@),
            MemoBody::Edit(v) => BodyView::Edit(v@),
            MemoBody::FullyMaterialized { v, r, e, t } => BodyView::FullyMaterialized(
                v@,
                r@,
                e@,
                *t,
            ),
            MemoBody::PartiallyMaterialized { v, r, e, t } => BodyView::PartiallyMaterialized(
                v@,
                r@,
                e@,
                *t,
            ),
            MemoBody::Peering(m, s, l) => BodyView::Peering(*m, *s, l.0@),
            MemoBody::MemoRequest(ids, s) => BodyView::MemoRequest(ids@, *s),
        }
    }
}

impl View for Memo {
    type V = MemoView;

    open spec fn view(&self) -> MemoView {
        MemoView {
            id: self.id,
            subject_id: self.subject_id,
            parents: self.parents@,
            body: self.body@,
        }
    }
}

/// `r` names a memo of `memos`, and that memo belongs to the subject that `r` names.
pub open spec fn ref_valid(memos: Seq<MemoView>, r: MemoRef) -> bool {
    &&& r.memo_id < memos.len()
    &&& memos[r.memo_id as int].subject_id == r.subject_id
}

/// Every memoref of `h` is valid and older than `bound`.
pub open spec fn head_below(memos: Seq<MemoView>, h: HeadView, bound: int) -> bool {
    forall|k: int|
        0 <= k < h.refs().len() ==> #[trigger] h.refs()[k].memo_id < bound && ref_valid(
            memos,
            h.refs()[k],
        )
}

/// Every memoref of `h` is valid.
pub open spec fn head_valid(memos: Seq<MemoView>, h: HeadView) -> bool {
    head_below(memos, h, memos.len() as int)
}

/// Every head of the edge set satisfies `head_below`.
pub open spec fn edges_below(
    memos: Seq<MemoView>,
    es: Seq<(RelationSlotId, HeadView)>,
    bound: int,
) -> bool {
    forall|j: int| 0 <= j < es.len() ==> head_below(memos, #[trigger] es[j].1, bound)
}

/// Every head that the body holds satisfies `head_below`.
pub open spec fn body_below(memos: Seq<MemoView>, b: BodyView, bound: int) -> bool {
    match b {
        BodyView::SlabPresence(_, h) => head_below(memos, h, bound),
        BodyView::Edge(es) => edges_below(memos, es, bound),
        BodyView::FullyMaterialized(_, _, es, _) => edges_below(memos, es, bound),
        BodyView::PartiallyMaterialized(_, _, es, _) => edges_below(memos, es, bound),
        _ => true,
    }
}

/// The memos of a slab: each is stored at its own id, and refers only to older memos.
pub open spec fn memos_wf(memos: Seq<MemoView>) -> bool {
    forall|i: int|
        0 <= i < memos.len() ==> {
            &&& (#[trigger] memos[i]).id == i
            &&& head_below(memos, memos[i].parents, i)
            &&& body_below(memos, memos[i].body, i)
        }
}

/// `bigger` holds the memos of `smaller` at the same ids, and maybe more.
pub open spec fn memos_extend(smaller: Seq<MemoView>, bigger: Seq<MemoView>) -> bool {
    &&& smaller.len() <= bigger.len()
    &&& forall|i: int| 0 <= i < smaller.len() ==> #[trigger] bigger[i] == smaller[i]
}

/// Validity of a memoref survives the addition of memos.
pub proof fn lemma_ref_valid_extend(smaller: Seq<MemoView>, bigger: Seq<MemoView>, r: MemoRef)
    requires
        memos_extend(smaller, bigger),
        ref_valid(smaller, r),
    ensures
        ref_valid(bigger, r),
{
    assert(bigger[r.memo_id as int] == smaller[r.memo_id as int]);
}

/// `head_below` survives the addition of memos.
pub proof fn lemma_head_below_extend(
    smaller: Seq<MemoView>,
    bigger: Seq<MemoView>,
    h: HeadView,
    bound: int,
)
    requires
        memos_extend(smaller, bigger),
        head_below(smaller, h, bound),
    ensures
        head_below(bigger, h, bound),
{
    assert forall|k: int| 0 <= k < h.refs().len() implies #[trigger] h.refs()[k].memo_id < bound
        && ref_valid(bigger, h.refs()[k]) by {
        lemma_ref_valid_extend(smaller, bigger, h.refs()[k]);
    }
}

/// `body_below` survives the addition of memos.
pub proof fn lemma_body_below_extend(
    smaller: Seq<MemoView>,
    bigger: Seq<MemoView>,
    b: BodyView,
    bound: int,
)
    requires
        memos_extend(smaller, bigger),
        body_below(smaller, b, bound),
    ensures
        body_below(bigger, b, bound),
{
    match b {
        BodyView::SlabPresence(_, h) => lemma_head_below_extend(smaller, bigger, h, bound),
        BodyView::Edge(es) => {
            assert forall|j: int| 0 <= j < es.len() implies head_below(bigger, #[trigger] es[j].1, bound) by {
                lemma_head_below_extend(smaller, bigger, es[j].1, bound);
            }
        },
        BodyView::FullyMaterialized(_, _, es, _) => {
            assert forall|j: int| 0 <= j < es.len() implies head_below(bigger, #[trigger] es[j].1, bound) by {
                lemma_head_below_extend(smaller, bigger, es[j].1, bound);
            }
        },
        BodyView::PartiallyMaterialized(_, _, es, _) => {
            assert forall|j: int| 0 <= j < es.len() implies head_below(bigger, #[trigger] es[j].1, bound) by {
                lemma_head_below_extend(smaller, bigger, es[j].1, bound);
            }
        },
        _ => {},
    }
}

/// `descends` between memos of `smaller` is the same in `bigger`.
pub proof fn lemma_descends_extend(smaller: Seq<MemoView>, bigger: Seq<MemoView>, a: MemoId, b: MemoRef)
    requires
        memos_extend(smaller, bigger),
        a < smaller.len(),
    ensures
        descends(bigger, a, b) == descends(smaller, a, b),
    decreases a,
{
    assert(bigger[a as int] == smaller[a as int]);
    let ps = smaller[a as int].parents.refs();
    assert forall|i: int| 0 <= i < ps.len() && ps[i].memo_id < a implies descends(bigger, ps[i].memo_id, b) == descends(smaller, ps[i].memo_id, b) by {
        lemma_descends_extend(smaller, bigger, ps[i].memo_id, b);
    }
}

/// Memo `a` descends memo `b`: `b` is a parent of `a`, or a parent of `a` descends `b`.
pub open spec fn descends(memos: Seq<MemoView>, a: MemoId, b: MemoRef) -> bool
    decreases a,
{
    if a < memos.len() {
        let ps = memos[a as int].parents.refs();
        exists|i: int|
            0 <= i < ps.len() && (#[trigger] ps[i] == b || (ps[i].memo_id < a && descends(
                memos,
                ps[i].memo_id,
                b,
            )))
    } else {
        false
    }
}


/// Calls `rand::random::<u32>()`: a value drawn from the thread's random
/// generator. Nothing is promised of it.
#[verifier::external_body]
fn random_u32() -> (r: u32) {
    rand::random::<u32>()
}

impl SlabId {
    /// A slab id drawn at random.
    pub fn dummy() -> (r: SlabId) {
        SlabId(random_u32())
    }

    /// The short text of the slab id: its number in decimal.
    pub fn short(&self) -> (r: String)
        ensures
            r@ == decimal(self.0 as nat),
    {
        decimal_string(self.0 as u64)
    }
}

impl Memo {
    /// Whether the memo takes part in peering: memo requests, peering and
    /// slab presence memos do not.
    pub fn does_peering(&self) -> (r: bool)
        ensures
            r == !(self.body is MemoRequest || self.body is Peering || self.body is SlabPresence),
    {
        match self.body {
            MemoBody::MemoRequest(_, _) => false,
            MemoBody::Peering(_, _, _) => false,
            MemoBody::SlabPresence { .. } => false,
            _ => true,
        }
    }

    /// A copy of the head of the memo's parents.
    pub fn get_parent_head(&self) -> (r: MemoRefHead)
        ensures
            r@ == self.parents@,
    {
        self.parents.clone_head()
    }

    /// The values that the memo sets, and whether they are all the values of
    /// its subject (a fully materialized memo).
    pub fn get_values(&self) -> (r: Option<(ValueSet, bool)>)
        ensures
            match self.body@ {
                BodyView::Edit(v) => r matches Some((vs, full)) && vs@ == v && !full,
                BodyView::FullyMaterialized(v, _, _, _) => r matches Some((vs, full)) && vs@ == v && full,
                _ => r is None,
            },
    {
        match &self.body {
            MemoBody::Edit(v) => Some((v.clone_values(), false)),
            MemoBody::FullyMaterialized { v, .. } => Some((v.clone_values(), true)),
            _ => None,
        }
    }

    /// The relations that the memo sets, and whether they are all the
    /// relations of its subject (a fully materialized memo).
    pub fn get_relations(&self) -> (r: Option<(RelationSet, bool)>)
        ensures
            match self.body@ {
                BodyView::Relation(rs) => r matches Some((x, full)) && x@ == rs && !full,
                BodyView::FullyMaterialized(_, rs, _, _) => r matches Some((x, full)) && x@ == rs && full,
                _ => r is None,
            },
    {
        match &self.body {
            MemoBody::Relation(rs) => Some((rs.clone_relations(), false)),
            MemoBody::FullyMaterialized { r, .. } => Some((r.clone_relations(), true)),
            _ => None,
        }
    }

    /// The edges that the memo sets, and whether they are all the edges of
    /// its subject (a fully materialized memo).
    pub fn get_edges(&self) -> (r: Option<(EdgeSet, bool)>)
        ensures
            match self.body@ {
                BodyView::Edge(e) => r matches Some((x, full)) && x@ == e && !full,
                BodyView::FullyMaterialized(_, _, e, _) => r matches Some((x, full)) && x@ == e && full,
                _ => r is None,
            },
    {
        match &self.body {
            MemoBody::Edge(e) => Some((e.clone_edges(), false)),
            MemoBody::FullyMaterialized { e, .. } => Some((e.clone_edges(), true)),
            _ => None,
        }
    }
}

impl ValueSet {
    /// A copy of the values.
    pub fn clone_values(&self) -> (r: ValueSet)
        ensures
            r@ == self@,
    {
        let v = crate::buffer::clone_pairs(&self.0);
        proof {
            assert(crate::buffer::pairs_view(v@) =~= v@.map_values(|kv: (String, String)| (kv.0@, kv.1@)));
            assert(crate::buffer::pairs_view(self.0@) =~= self.0@.map_values(|kv: (String, String)| (kv.0@, kv.1@)));
        }
        ValueSet(v)
    }
}

impl RelationSet {
    /// A copy of the relations.
    pub fn clone_relations(&self) -> (r: RelationSet)
        ensures
            r@ == self@,
    {
        let mut v: Vec<(RelationSlotId, Option<SubjectId>)> = Vec::new();
        let mut i: usize = 0;
        while i < self.0.len()
            invariant
                i <= self.0@.len(),
                v@ == self.0@.take(i as int),
            decreases self.0@.len() - i,
        {
            let item = self.0[i];
            v.push(item);
            proof {
                assert(self.0@.take(i + 1) =~= self.0@.take(i as int).push(self.0@[i as int]));
            }
            i = i + 1;
        }
        proof {
            assert(self.0@.take(self.0@.len() as int) =~= self.0@);
        }
        RelationSet(v)
    }
}

impl EdgeSet {
    /// A copy of the edges.
    pub fn clone_edges(&self) -> (r: EdgeSet)
        ensures
            r@ == self@,
    {
        let mut v: Vec<(RelationSlotId, MemoRefHead)> = Vec::new();
        let mut i: usize = 0;
        while i < self.0.len()
            invariant
                i <= self.0@.len(),
                v@.len() == i,
                forall|k: int| 0 <= k < i ==> (#[trigger] v@[k]).0 == self.0@[k].0 && v@[k].1@ == self.0@[k].1@,
            decreases self.0@.len() - i,
        {
            let h = self.0[i].1.clone_head();
            v.push((self.0[i].0, h));
            i = i + 1;
        }
        let r = EdgeSet(v);
        proof {
            assert(r@ =~= self@);
        }
        r
    }
}

/// A memo only descends older memos; in particular no memo descends itself.
pub proof fn lemma_descends_older(memos: Seq<MemoView>, a: MemoId, r: MemoRef)
    requires
        memos_wf(memos),
        descends(memos, a, r),
    ensures
        r.memo_id < a,
    decreases a,
{
    let ps = memos[a as int].parents.refs();
    assert(head_below(memos, memos[a as int].parents, a as int));
    let i = choose|i: int|
        0 <= i < ps.len() && (#[trigger] ps[i] == r || (ps[i].memo_id < a && descends(memos, ps[i].memo_id, r)));
    assert(ps[i].memo_id < a);
    if ps[i] != r {
        lemma_descends_older(memos, ps[i].memo_id, r);
    }
}

/// Descent is transitive: a memo that descends `b` descends whatever `b`'s memo descends.
pub proof fn lemma_descends_transitive(memos: Seq<MemoView>, a: MemoId, b: MemoRef, c: MemoRef)
    requires
        memos_wf(memos),
        descends(memos, a, b),
        descends(memos, b.memo_id, c),
    ensures
        descends(memos, a, c),
    decreases a,
{
    let ps = memos[a as int].parents.refs();
    assert(head_below(memos, memos[a as int].parents, a as int));
    let i = choose|i: int|
        0 <= i < ps.len() && (#[trigger] ps[i] == b || (ps[i].memo_id < a && descends(memos, ps[i].memo_id, b)));
    assert(ps[i].memo_id < a);
    if ps[i] == b {
        assert(0 <= i < ps.len() && (ps[i] == c || (ps[i].memo_id < a && descends(memos, ps[i].memo_id, c))));
    } else {
        lemma_descends_transitive(memos, ps[i].memo_id, b, c);
        assert(0 <= i < ps.len() && (ps[i] == c || (ps[i].memo_id < a && descends(memos, ps[i].memo_id, c))));
    }
}

/// A stored memo is read back as it was written: the slab after `new_memo`
/// holds the earlier memos unchanged and the new memo at the new id.
pub proof fn lemma_new_memo_readback(
    memos: Seq<MemoView>,
    subject_id: SubjectId,
    parents: HeadView,
    body: BodyView,
)
    ensures
        memos_extend(memos, Slab::added(memos, subject_id, parents, body)),
        Slab::added(memos, subject_id, parents, body)[memos.len() as int] == (MemoView {
            id: memos.len() as MemoId,
            subject_id,
            parents,
            body,
        }),
{
}

impl SubjectId {
    /// The subject id that stands for "no subject".
    pub fn anonymous() -> (r: SubjectId)
        ensures
            r == (SubjectId { id: 0, stype: SubjectType::Anonymous }),
    {
        SubjectId { id: 0, stype: SubjectType::Anonymous }
    }

    /// The id of an index node, as tests use them.
    pub fn index_test(id: u64) -> (r: SubjectId)
        ensures
            r == (SubjectId { id, stype: SubjectType::IndexNode }),
    {
        SubjectId { id, stype: SubjectType::IndexNode }
    }

    /// Whether this is the anonymous subject type.
    pub fn is_anonymous(&self) -> (r: bool)
        ensures
            r == (self.stype == SubjectType::Anonymous),
    {
        match self.stype {
            SubjectType::Anonymous => true,
            _ => false,
        }
    }
}

impl MemoRef {
    /// The head that holds just this memoref.
    pub open spec fn spec_to_head(self) -> HeadView {
        if self.subject_id.stype == SubjectType::Anonymous {
            HeadView::Anonymous(seq![self])
        } else {
            HeadView::Subject(self.subject_id, seq![self])
        }
    }

    /// The head that holds just this memoref: the head of its subject, or an
    /// anonymous head when the memo has no subject.
    pub fn to_head(&self) -> (r: MemoRefHead)
        ensures
            r@ == self.spec_to_head(),
    {
        let mut v: Vec<MemoRef> = Vec::new();
        v.push(*self);
        proof { assert(v@ =~= seq![*self]); }
        if self.subject_id.is_anonymous() {
            MemoRefHead::Anonymous { head: v }
        } else {
            MemoRefHead::Subject { subject_id: self.subject_id, head: v }
        }
    }
}

impl MemoRef {
    /// Whether the memo that this memoref names descends `other`; `NotFound`
    /// when the slab does not hold that memo.
    pub fn descends(&self, other: &MemoRef, slab: &Slab) -> (r: Result<bool, RetrieveError>)
        requires
            slab.wf(),
        ensures
            self.memo_id < slab.memos().len() ==> r == Ok::<bool, RetrieveError>(
                descends(slab.memos(), self.memo_id, *other),
            ),
            self.memo_id >= slab.memos().len() ==> r == Err::<bool, RetrieveError>(
                RetrieveError::NotFound,
            ),
    {
        if (self.memo_id as u128) < (slab.memo_count() as u128) {
            Ok(slab.id_descends(self.memo_id, other))
        } else {
            Err(RetrieveError::NotFound)
        }
    }
}

/// The memo storage of a slab. Memo `i` is stored at index `i`; a memo can
/// only refer to memos that the slab already held when it was written.
#[derive(Debug)]
pub struct Slab {
    id: SlabId,
    memos: Vec<Memo>,
}

impl Slab {
    /// The memos of the slab, by id.
    pub closed spec fn memos(&self) -> Seq<MemoView> {
        self.memos@.map_values(|m: Memo| m@)
    }

    /// The id of the slab.
    pub closed spec fn spec_slab_id(&self) -> SlabId {
        self.id
    }

    /// The id of the slab.
    pub fn slab_id(&self) -> (r: SlabId)
        ensures
            r == self.spec_slab_id(),
    {
        self.id
    }

    /// The slab's memos are well formed.
    pub open spec fn wf(&self) -> bool {
        memos_wf(self.memos())
    }

    /// An empty slab with the given id.
    pub fn new_with_id(id: SlabId) -> (r: Slab)
        ensures
            r.wf(),
            r.spec_slab_id() == id,
            r.memos() == Seq::<MemoView>::empty(),
    {
        let r = Slab { id, memos: Vec::new() };
        proof { assert(r.memos() =~= Seq::<MemoView>::empty()); }
        r
    }

    /// The number of memos that the slab holds.
    pub fn memo_count(&self) -> (r: usize)
        ensures
            r == self.memos().len(),
    {
        self.memos.len()
    }

    /// The memo that a memoref names, or `NotFound` when the slab does not hold it.
    pub fn get_memo(&self, memoref: &MemoRef) -> (r: Result<&Memo, RetrieveError>)
        ensures
            memoref.memo_id < self.memos().len() ==> (r matches Ok(m) && m@ == self.memos()[memoref.memo_id as int]),
            memoref.memo_id >= self.memos().len() ==> r == Err::<&Memo, RetrieveError>(RetrieveError::NotFound),
    {
        if (memoref.memo_id as u128) < (self.memos.len() as u128) {
            Ok(&self.memos[memoref.memo_id as usize])
        } else {
            Err(RetrieveError::NotFound)
        }
    }

    /// The slab after a memo has been added to it.
    pub open spec fn added(old_memos: Seq<MemoView>, subject_id: SubjectId, parents: HeadView, body: BodyView) -> Seq<MemoView> {
        old_memos.push(MemoView { id: old_memos.len() as MemoId, subject_id, parents, body })
    }

    /// Stores a new memo with the given subject, parents and body, and
    /// returns the memoref that names it. Parents and the heads in the body
    /// must be memos of this slab.
    pub fn new_memo(&mut self, subject_id: SubjectId, parents: MemoRefHead, body: MemoBody) -> (r: MemoRef)
        requires
            old(self).wf(),
            old(self).memos().len() < u64::MAX,
            head_valid(old(self).memos(), parents@),
            body_below(old(self).memos(), body@, old(self).memos().len() as int),
        ensures
            final(self).wf(),
            final(self).spec_slab_id() == old(self).spec_slab_id(),
            final(self).memos() == Self::added(old(self).memos(), subject_id, parents@, body@),
            r == (MemoRef { memo_id: old(self).memos().len() as MemoId, subject_id }),
            ref_valid(final(self).memos(), r),
    {
        let ghost old_memos = self.memos();
        let len = self.memos.len();
        let id = len as u64;
        let ghost pv = parents@;
        let ghost bv = body@;
        self.memos.push(Memo { id, subject_id, parents, body });
        proof {
            let new_memos = self.memos();
            assert(new_memos =~= Self::added(old_memos, subject_id, pv, bv));
            assert(memos_extend(old_memos, new_memos));
            assert forall|i: int| 0 <= i < new_memos.len() implies {
                &&& (#[trigger] new_memos[i]).id == i
                &&& head_below(new_memos, new_memos[i].parents, i)
                &&& body_below(new_memos, new_memos[i].body, i)
            } by {
                if i < old_memos.len() {
                    assert(old_memos[i].id == i);
                    lemma_head_below_extend(old_memos, new_memos, old_memos[i].parents, i);
                    lemma_body_below_extend(old_memos, new_memos, old_memos[i].body, i);
                } else {
                    lemma_head_below_extend(old_memos, new_memos, pv, i);
                    lemma_body_below_extend(old_memos, new_memos, bv, i);
                }
            }
        }
        MemoRef { memo_id: id, subject_id }
    }

    /// Stores a new memo for a subject on top of the given head.
    pub fn new_memo_basic(&mut self, subject_id: SubjectId, parents: MemoRefHead, body: MemoBody) -> (r: MemoRef)
        requires
            old(self).wf(),
            old(self).memos().len() < u64::MAX,
            head_valid(old(self).memos(), parents@),
            body_below(old(self).memos(), body@, old(self).memos().len() as int),
        ensures
            final(self).wf(),
            final(self).spec_slab_id() == old(self).spec_slab_id(),
            final(self).memos() == Self::added(old(self).memos(), subject_id, parents@, body@),
            r == (MemoRef { memo_id: old(self).memos().len() as MemoId, subject_id }),
            ref_valid(final(self).memos(), r),
    {
        self.new_memo(subject_id, parents, body)
    }

    /// Stores a new memo for a subject that descends no memo.
    pub fn new_memo_basic_noparent(&mut self, subject_id: SubjectId, body: MemoBody) -> (r: MemoRef)
        requires
            old(self).wf(),
            old(self).memos().len() < u64::MAX,
            body_below(old(self).memos(), body@, old(self).memos().len() as int),
        ensures
            final(self).wf(),
            final(self).spec_slab_id() == old(self).spec_slab_id(),
            final(self).memos() == Self::added(old(self).memos(), subject_id, HeadView::Null, body@),
            r == (MemoRef { memo_id: old(self).memos().len() as MemoId, subject_id }),
            ref_valid(final(self).memos(), r),
    {
        self.new_memo(subject_id, MemoRefHead::Null, body)
    }

    /// Whether memo `a` descends `target`.
    pub(crate) fn id_descends(&self, a: MemoId, target: &MemoRef) -> (r: bool)
        requires
            self.wf(),
            a < self.memos().len(),
        ensures
            r == descends(self.memos(), a, *target),
        decreases a,
    {
        let ghost memos = self.memos();
        proof {
            assert(memos.len() == self.memos@.len());
        }
        let len = self.memos.len();
        let ai = a as usize;
        proof {
            assert(ai as int == a as int);
        }
        let memo = &self.memos[ai];
        proof {
            assert(self.memos@[ai as int] == *memo);
            assert(memos[a as int] == memo@);
            assert(memos[a as int].id == a);
        }
        let n = memo.parents.len();
        let mut i: usize = 0;
        while i < n
            invariant
                n == memo.parents@.refs().len(),
                i <= n,
                a < memos.len(),
                memos == self.memos(),
                memo@ == memos[a as int],
                forall|j: int| 0 <= j < i ==> memo.parents@.refs()[j] != *target,
            decreases n - i,
        {
            let p = memo.parents.ref_at(i);
            if p == *target {
                proof {
                    let ps = memos[a as int].parents.refs();
                    assert(ps[i as int] == *target);
                    assert(0 <= i < ps.len() && (ps[i as int] == *target || (ps[i as int].memo_id < a && descends(memos, ps[i as int].memo_id, *target))));
                }
                return true;
            }
            i = i + 1;
        }
        let mut i: usize = 0;
        while i < n
            invariant
                self.wf(),
                memos == self.memos(),
                a < memos.len(),
                n == memo.parents@.refs().len(),
                i <= n,
                memo@ == memos[a as int],
                head_below(memos, memo.parents@, a as int),
                forall|j: int| 0 <= j < n ==> memo.parents@.refs()[j] != *target,
                forall|j: int|
                    0 <= j < i ==> !descends(memos, #[trigger] memo.parents@.refs()[j].memo_id, *target),
            decreases n - i,
        {
            let p = memo.parents.ref_at(i);
            proof {
                assert(p.memo_id < a);
            }
            if self.id_descends(p.memo_id, target) {
                proof {
                    let ps = memos[a as int].parents.refs();
                    assert(ps[i as int] == p);
                    assert(0 <= i < ps.len() && (ps[i as int] == *target || (ps[i as int].memo_id < a && descends(memos, ps[i as int].memo_id, *target))));
                }
                return true;
            }
            i = i + 1;
        }
        proof {
            let ps = memos[a as int].parents.refs();
            assert forall|j: int| 0 <= j < ps.len() implies !(#[trigger] ps[j] == *target || (ps[j].memo_id < a && descends(memos, ps[j].memo_id, *target))) by {
                assert(memo.parents@.refs()[j] == ps[j]);
            }
        }
        false
    }
}

} // verus!
