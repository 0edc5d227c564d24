use vstd::prelude::*;

use crate::memorefhead::{HeadView, MemoRefHead};
use crate::network::{TransportAddress, TransportLiveness};
use crate::slab::{
    EdgeSet, MemoBody, MemoId, MemoPeeringStatus, MemoRef, RelationSet, RelationSlotId, SlabId,
    SubjectId,
};

verus! {

/// Turns the identities of the data model into the tokens that a buffer
/// stores, and back.
pub trait BufferHelper {
    type EntityToken;
    type MemoToken;
    type SlabToken;

    /// The token of a subject.
    spec fn entity_token(&self, entity_id: SubjectId) -> Self::EntityToken;

    /// The token of a memoref.
    spec fn memo_token(&self, memoref: MemoRef) -> Self::MemoToken;

    /// The token of a slab id.
    spec fn slab_token(&self, slab_id: SlabId) -> Self::SlabToken;

    /// The subject of a token.
    spec fn entity_of(&self, token: Self::EntityToken) -> SubjectId;

    /// The memoref of a token.
    spec fn memoref_of(&self, token: Self::MemoToken) -> MemoRef;

    /// The slab id of a token.
    spec fn slab_of(&self, token: Self::SlabToken) -> SlabId;

    fn from_entity_id(&self, entity_id: &SubjectId) -> (r: Self::EntityToken)
        ensures
            r == self.entity_token(*entity_id),
    ;

    fn from_memoref(&self, memoref: &MemoRef) -> (r: Self::MemoToken)
        ensures
            r == self.memo_token(*memoref),
    ;

    fn from_slab_id(&self, slab_id: &SlabId) -> (r: Self::SlabToken)
        ensures
            r == self.slab_token(*slab_id),
    ;

    fn to_entity_id(&self, entity_token: &Self::EntityToken) -> (r: SubjectId)
        ensures
            r == self.entity_of(*entity_token),
    ;

    fn to_memoref(&self, memo_token: &Self::MemoToken) -> (r: MemoRef)
        ensures
            r == self.memoref_of(*memo_token),
    ;

    fn to_slab_id(&self, slab_token: &Self::SlabToken) -> (r: SlabId)
        ensures
            r == self.slab_of(*slab_token),
    ;
}

/// The helper of the slab's own state: subjects and slab ids stand for
/// themselves, and a memoref is stored by its memo id.
pub struct SlabStateBufHelper {}

impl BufferHelper for SlabStateBufHelper {
    type EntityToken = SubjectId;
    type MemoToken = MemoId;
    type SlabToken = SlabId;

    open spec fn entity_token(&self, entity_id: SubjectId) -> SubjectId {
        entity_id
    }

    open spec fn memo_token(&self, memoref: MemoRef) -> MemoId {
        memoref.memo_id
    }

    open spec fn slab_token(&self, slab_id: SlabId) -> SlabId {
        slab_id
    }

    open spec fn entity_of(&self, token: SubjectId) -> SubjectId {
        token
    }

    /// A memo id alone does not tell the memo's subject: the memoref it gives
    /// back is anonymous.
    open spec fn memoref_of(&self, token: MemoId) -> MemoRef {
        MemoRef { memo_id: token, subject_id: SubjectId { id: 0, stype: crate::slab::SubjectType::Anonymous } }
    }

    open spec fn slab_of(&self, token: SlabId) -> SlabId {
        token
    }

    fn from_entity_id(&self, entity_id: &SubjectId) -> (r: SubjectId) {
        *entity_id
    }

    fn from_memoref(&self, memoref: &MemoRef) -> (r: MemoId) {
        memoref.memo_id
    }

    fn from_slab_id(&self, slab_id: &SlabId) -> (r: SlabId) {
        *slab_id
    }

    fn to_entity_id(&self, entity_token: &SubjectId) -> (r: SubjectId) {
        *entity_token
    }

    fn to_memoref(&self, memo_token: &MemoId) -> (r: MemoRef) {
        MemoRef { memo_id: *memo_token, subject_id: SubjectId::anonymous() }
    }

    fn to_slab_id(&self, slab_token: &SlabId) -> (r: SlabId) {
        *slab_token
    }
}

/// A head as a buffer stores it.
#[derive(Debug)]
pub enum HeadBufElement<E, M> {
    Null,
    Entity { entity: E, head: Vec<M> },
    Anonymous { head: Vec<M> },
}

/// The tokens of a sequence of memorefs.
pub open spec fn memo_tokens<H: BufferHelper>(helper: &H, refs: Seq<MemoRef>) -> Seq<H::MemoToken> {
    refs.map_values(|m: MemoRef| helper.memo_token(m))
}

/// The memorefs of a sequence of tokens.
pub open spec fn memorefs_of<H: BufferHelper>(helper: &H, tokens: Seq<H::MemoToken>) -> Seq<MemoRef> {
    tokens.map_values(|t: H::MemoToken| helper.memoref_of(t))
}

/// `b` is the buffer element of head `h`.
pub open spec fn head_buf_of<H: BufferHelper>(
    helper: &H,
    h: HeadView,
    b: HeadBufElement<H::EntityToken, H::MemoToken>,
) -> bool {
    match h {
        HeadView::Null => b is Null,
        HeadView::Subject(s, refs) => b matches HeadBufElement::Entity { entity, head } && entity
            == helper.entity_token(s) && head@ == memo_tokens(helper, refs),
        HeadView::Anonymous(refs) => b matches HeadBufElement::Anonymous { head } && head@ == memo_tokens(
            helper,
            refs,
        ),
    }
}

/// The head of a buffer element.
pub open spec fn head_of_buf<H: BufferHelper>(helper: &H, b: HeadBufElement<H::EntityToken, H::MemoToken>) -> HeadView {
    match b {
        HeadBufElement::Null => HeadView::Null,
        HeadBufElement::Entity { entity, head } => HeadView::Subject(helper.entity_of(entity), memorefs_of(helper, head@)),
        HeadBufElement::Anonymous { head } => HeadView::Anonymous(memorefs_of(helper, head@)),
    }
}

/// The tokens of the memorefs of `refs`, one by one.
fn tokens_of<H: BufferHelper>(helper: &H, head: &MemoRefHead) -> (r: Vec<H::MemoToken>)
    ensures
        r@ == memo_tokens(helper, head@.refs()),
{
    let n = head.len();
    let mut r: Vec<H::MemoToken> = Vec::new();
    let mut i: usize = 0;
    while i < n
        invariant
            n == head@.refs().len(),
            i <= n,
            r@ == memo_tokens(helper, head@.refs().take(i as int)),
        decreases n - i,
    {
        let m = head.ref_at(i);
        let t = helper.from_memoref(&m);
        r.push(t);
        proof {
            assert(memo_tokens(helper, head@.refs().take(i + 1)) =~= memo_tokens(helper, head@.refs().take(i as int)).push(t));
        }
        i = i + 1;
    }
    proof {
        assert(head@.refs().take(n as int) =~= head@.refs());
    }
    r
}

/// The memorefs of the tokens of `tokens`, one by one.
fn refs_of<H: BufferHelper>(helper: &H, tokens: &Vec<H::MemoToken>) -> (r: Vec<MemoRef>)
    ensures
        r@ == memorefs_of(helper, tokens@),
{
    let n = tokens.len();
    let mut r: Vec<MemoRef> = Vec::new();
    let mut i: usize = 0;
    while i < n
        invariant
            n == tokens@.len(),
            i <= n,
            r@ == memorefs_of(helper, tokens@.take(i as int)),
        decreases n - i,
    {
        let m = helper.to_memoref(&tokens[i]);
        r.push(m);
        proof {
            assert(memorefs_of(helper, tokens@.take(i + 1)) =~= memorefs_of(helper, tokens@.take(i as int)).push(m));
        }
        i = i + 1;
    }
    proof {
        assert(tokens@.take(n as int) =~= tokens@);
    }
    r
}

impl<E, M> HeadBufElement<E, M> {
    /// The buffer element of a head: its subject and memorefs as tokens.
    pub fn from_head<H: BufferHelper<EntityToken = E, MemoToken = M>>(head: &MemoRefHead, helper: &H) -> (r: Self)
        ensures
            head_buf_of(helper, head@, r),
    {
        match head {
            MemoRefHead::Null => HeadBufElement::Null,
            MemoRefHead::Anonymous { .. } => HeadBufElement::Anonymous { head: tokens_of(helper, head) },
            MemoRefHead::Subject { subject_id, .. } => HeadBufElement::Entity {
                entity: helper.from_entity_id(subject_id),
                head: tokens_of(helper, head),
            },
        }
    }

    /// The head of this buffer element.
    pub fn to_head<H: BufferHelper<EntityToken = E, MemoToken = M>>(self, helper: &H) -> (r: MemoRefHead)
        ensures
            r@ == head_of_buf(helper, self),
    {
        match self {
            HeadBufElement::Null => MemoRefHead::Null,
            HeadBufElement::Anonymous { head } => MemoRefHead::Anonymous { head: refs_of(helper, &head) },
            HeadBufElement::Entity { entity, head } => MemoRefHead::Subject {
                subject_id: helper.to_entity_id(&entity),
                head: refs_of(helper, &head),
            },
        }
    }
}

/// A buffer element gives back the head it was made of, where the helper
/// gives back each subject and memoref from its token.
pub proof fn lemma_head_buf_roundtrip<H: BufferHelper>(
    helper: &H,
    h: HeadView,
    b: HeadBufElement<H::EntityToken, H::MemoToken>,
)
    requires
        head_buf_of(helper, h, b),
        h.subject() matches Some(s) ==> helper.entity_of(helper.entity_token(s)) == s,
        forall|k: int| 0 <= k < h.refs().len() ==> helper.memoref_of(helper.memo_token(#[trigger] h.refs()[k])) == h.refs()[k],
    ensures
        head_of_buf(helper, b) == h,
{
    match b {
        HeadBufElement::Null => {},
        HeadBufElement::Entity { entity, head } => {
            assert(memorefs_of(helper, head@) =~= h.refs());
        },
        HeadBufElement::Anonymous { head } => {
            assert(memorefs_of(helper, head@) =~= h.refs());
        },
    }
}

/// The relations of a memo as a buffer stores them.
#[derive(Debug)]
pub struct RelationSetBufElement<E> {
    pub slots: Vec<(RelationSlotId, Option<E>)>,
}

/// The token of an optional subject.
pub open spec fn opt_entity_token<H: BufferHelper>(helper: &H, o: Option<SubjectId>) -> Option<H::EntityToken> {
    match o {
        Some(s) => Some(helper.entity_token(s)),
        None => None,
    }
}

/// The subject of an optional token.
pub open spec fn opt_entity_of<H: BufferHelper>(helper: &H, o: Option<H::EntityToken>) -> Option<SubjectId> {
    match o {
        Some(t) => Some(helper.entity_of(t)),
        None => None,
    }
}

impl<E> RelationSetBufElement<E> {
    /// The buffer element of a relation set: each slot with its subject as a token, in order.
    pub fn from_relationset<H: BufferHelper<EntityToken = E>>(relationset: &RelationSet, helper: &H) -> (r: Self)
        ensures
            r.slots@.len() == relationset@.len(),
            forall|k: int|
                0 <= k < relationset@.len() ==> (#[trigger] r.slots@[k]).0 == relationset@[k].0 && r.slots@[k].1
                    == opt_entity_token(helper, relationset@[k].1),
    {
        let n = relationset.0.len();
        let mut slots: Vec<(RelationSlotId, Option<E>)> = Vec::new();
        let mut i: usize = 0;
        while i < n
            invariant
                n == relationset@.len(),
                i <= n,
                slots@.len() == i,
                forall|k: int|
                    0 <= k < i ==> (#[trigger] slots@[k]).0 == relationset@[k].0 && slots@[k].1 == opt_entity_token(
                        helper,
                        relationset@[k].1,
                    ),
            decreases n - i,
        {
            let (slot, rel) = relationset.0[i];
            let t = match rel {
                Some(e) => Some(helper.from_entity_id(&e)),
                None => None,
            };
            slots.push((slot, t));
            i = i + 1;
        }
        RelationSetBufElement { slots }
    }

    /// The relation set of this buffer element.
    pub fn to_relationset<H: BufferHelper<EntityToken = E>>(self, helper: &H) -> (r: RelationSet)
        ensures
            r@.len() == self.slots@.len(),
            forall|k: int|
                0 <= k < self.slots@.len() ==> (#[trigger] r@[k]).0 == self.slots@[k].0 && r@[k].1 == opt_entity_of(
                    helper,
                    self.slots@[k].1,
                ),
    {
        let n = self.slots.len();
        let mut v: Vec<(RelationSlotId, Option<SubjectId>)> = Vec::new();
        let mut i: usize = 0;
        while i < n
            invariant
                n == self.slots@.len(),
                i <= n,
                v@.len() == i,
                forall|k: int|
                    0 <= k < i ==> (#[trigger] v@[k]).0 == self.slots@[k].0 && v@[k].1 == opt_entity_of(
                        helper,
                        self.slots@[k].1,
                    ),
            decreases n - i,
        {
            let rel = match &self.slots[i].1 {
                Some(t) => Some(helper.to_entity_id(t)),
                None => None,
            };
            v.push((self.slots[i].0, rel));
            i = i + 1;
        }
        RelationSet(v)
    }
}

/// The edges of a memo as a buffer stores them.
#[derive(Debug)]
pub struct EdgeSetBufElement<E, M> {
    pub v: Vec<(RelationSlotId, HeadBufElement<E, M>)>,
}

impl<E, M> EdgeSetBufElement<E, M> {
    /// The buffer element of an edge set: each slot with its head as a buffer element, in order.
    pub fn from_edgeset<H: BufferHelper<EntityToken = E, MemoToken = M>>(edgeset: &EdgeSet, helper: &H) -> (r: Self)
        ensures
            r.v@.len() == edgeset@.len(),
            forall|k: int|
                0 <= k < edgeset@.len() ==> (#[trigger] r.v@[k]).0 == edgeset@[k].0 && head_buf_of(
                    helper,
                    edgeset@[k].1,
                    r.v@[k].1,
                ),
    {
        let n = edgeset.0.len();
        let mut v: Vec<(RelationSlotId, HeadBufElement<E, M>)> = Vec::new();
        let mut i: usize = 0;
        while i < n
            invariant
                n == edgeset@.len(),
                n == edgeset.0@.len(),
                i <= n,
                v@.len() == i,
                forall|k: int|
                    0 <= k < i ==> (#[trigger] v@[k]).0 == edgeset@[k].0 && head_buf_of(helper, edgeset@[k].1, v@[k].1),
            decreases n - i,
        {
            let b = HeadBufElement::from_head(&edgeset.0[i].1, helper);
            v.push((edgeset.0[i].0, b));
            i = i + 1;
        }
        EdgeSetBufElement { v }
    }

    /// The edge set of this buffer element.
    pub fn to_edgeset<H: BufferHelper<EntityToken = E, MemoToken = M>>(self, helper: &H) -> (r: EdgeSet)
        ensures
            r@.len() == self.v@.len(),
            forall|k: int|
                0 <= k < self.v@.len() ==> (#[trigger] r@[k]).0 == self.v@[k].0 && r@[k].1 == head_of_buf(
                    helper,
                    self.v@[k].1,
                ),
    {
        let ghost old_v = self.v@;
        let ghost n = old_v.len();
        let mut src = self.v;
        let mut rev: Vec<(RelationSlotId, MemoRefHead)> = Vec::new();
        while src.len() > 0
            invariant
                n == old_v.len(),
                src@.len() <= n,
                src@ == old_v.take(src@.len() as int),
                rev@.len() == n - src@.len(),
                forall|k: int|
                    0 <= k < rev@.len() ==> (#[trigger] rev@[k]).0 == old_v[n - 1 - k].0 && rev@[k].1@ == head_of_buf(
                        helper,
                        old_v[n - 1 - k].1,
                    ),
            decreases src@.len(),
        {
            let ghost before = src@;
            match src.pop() {
                Some(e) => {
                    proof {
                        assert(e == before[before.len() - 1]);
                        assert(src@ =~= old_v.take(src@.len() as int));
                    }
                    let (slot, b) = e;
                    let h = b.to_head(helper);
                    rev.push((slot, h));
                },
                None => {},
            }
        }
        let mut out: Vec<(RelationSlotId, MemoRefHead)> = Vec::new();
        while rev.len() > 0
            invariant
                n == old_v.len(),
                rev@.len() + out@.len() == n,
                forall|k: int|
                    0 <= k < rev@.len() ==> (#[trigger] rev@[k]).0 == old_v[n - 1 - k].0 && rev@[k].1@ == head_of_buf(
                        helper,
                        old_v[n - 1 - k].1,
                    ),
                forall|k: int|
                    0 <= k < out@.len() ==> (#[trigger] out@[k]).0 == old_v[k].0 && out@[k].1@ == head_of_buf(
                        helper,
                        old_v[k].1,
                    ),
            decreases rev@.len(),
        {
            let ghost before = rev@;
            match rev.pop() {
                Some(e) => {
                    proof {
                        assert(e == before[before.len() - 1]);
                    }
                    out.push(e);
                },
                None => {},
            }
        }
        proof {
            let r = EdgeSet(out)@;
            assert forall|k: int| 0 <= k < n implies (#[trigger] r[k]).0 == old_v[k].0 && r[k].1 == head_of_buf(helper, old_v[k].1) by {
                assert(r[k] == (out@[k].0, out@[k].1@));
            }
        }
        EdgeSet(out)
    }
}

/// `b` is the buffer element of the relations `rs`.
pub open spec fn relation_buf_of<H: BufferHelper>(
    helper: &H,
    rs: Seq<(RelationSlotId, Option<SubjectId>)>,
    b: RelationSetBufElement<H::EntityToken>,
) -> bool {
    &&& b.slots@.len() == rs.len()
    &&& forall|k: int|
        0 <= k < rs.len() ==> (#[trigger] b.slots@[k]).0 == rs[k].0 && b.slots@[k].1 == opt_entity_token(helper, rs[k].1)
}

/// `b` is the buffer element of the edges `es`.
pub open spec fn edge_buf_of<H: BufferHelper>(
    helper: &H,
    es: Seq<(RelationSlotId, HeadView)>,
    b: EdgeSetBufElement<H::EntityToken, H::MemoToken>,
) -> bool {
    &&& b.v@.len() == es.len()
    &&& forall|k: int| 0 <= k < es.len() ==> (#[trigger] b.v@[k]).0 == es[k].0 && head_buf_of(helper, es[k].1, b.v@[k].1)
}

/// A peer of a memo as a buffer stores it.
#[derive(Debug)]
pub struct MemoPeerBufElement<S> {
    pub slab_id: S,
    pub status: MemoPeeringStatus,
}

/// The peers of a memo, stored by memo.
#[derive(Debug)]
pub struct MemoPeersBuf<M, S> {
    pub memo_id: M,
    pub peers: Vec<MemoPeerBufElement<S>>,
}

/// A slab's presence as a buffer stores it.
#[derive(Debug)]
pub struct SlabPresenceBufElement<E, M> {
    pub address: TransportAddress,
    pub liveness: TransportLiveness,
    pub latest_clock: HeadBufElement<E, M>,
}

/// A slab as a buffer stores it: where it can be reached.
#[derive(Debug)]
pub struct SlabBuf<E, M> {
    pub presence: Vec<SlabPresenceBufElement<E, M>>,
}

/// The values that an edit memo sets, as a buffer stores them.
#[derive(Debug)]
pub struct EditBufElement {
    pub edit: Vec<(String, String)>,
}

/// The body of a memo as a buffer stores it.
#[derive(Debug)]
#[allow(inconsistent_fields)]
pub enum MemoBodyBufElement<E, M, S> {
    SlabPresence { p: SlabPresenceBufElement<E, M>, r: HeadBufElement<E, M> },
    Peering(M, Vec<MemoPeerBufElement<S>>),
    MemoRequest(Vec<M>, Vec<S>),
    Relation(RelationSetBufElement<E>),
    Edge(EdgeSetBufElement<E, M>),
    Edit(EditBufElement),
    FullyMaterialized { v: Vec<(String, String)>, e: EdgeSetBufElement<E, M>, r: RelationSetBufElement<E> },
    PartiallyMaterialized { v: Vec<(String, String)>, e: EdgeSetBufElement<E, M>, r: RelationSetBufElement<E> },
}

/// The key/value pairs of a value list, by value.
pub open spec fn pairs_view(v: Seq<(String, String)>) -> Seq<(Seq<char>, Seq<char>)> {
    v.map_values(|kv: (String, String)| (kv.0@, kv.1@))
}

/// A copy of a list of key/value pairs.
pub(crate) fn clone_pairs(v: &Vec<(String, String)>) -> (r: Vec<(String, String)>)
    ensures
        pairs_view(r@) == pairs_view(v@),
{
    let mut r: Vec<(String, String)> = Vec::new();
    let mut i: usize = 0;
    while i < v.len()
        invariant
            i <= v@.len(),
            pairs_view(r@) == pairs_view(v@.take(i as int)),
        decreases v@.len() - i,
    {
        let k = v[i].0.clone();
        let x = v[i].1.clone();
        r.push((k, x));
        proof {
            assert(pairs_view(v@.take(i + 1)) =~= pairs_view(v@.take(i as int)).push((v@[i as int].0@, v@[i as int].1@)));
            assert(pairs_view(r@) =~= pairs_view(v@.take(i + 1)));
        }
        i = i + 1;
    }
    proof {
        assert(v@.take(v@.len() as int) =~= v@);
    }
    r
}

impl<E, M, S> MemoBodyBufElement<E, M, S> {
    /// The buffer element of a relation, edge or edit body.
    pub fn from_body<H: BufferHelper<EntityToken = E, MemoToken = M, SlabToken = S>>(body: &MemoBody, helper: &H) -> (r: Self)
        requires
            body is Relation || body is Edge || body is Edit,
        ensures
            body matches MemoBody::Relation(rs) ==> (r matches MemoBodyBufElement::Relation(b) && relation_buf_of(
                helper,
                rs@,
                b,
            )),
            body matches MemoBody::Edge(es) ==> (r matches MemoBodyBufElement::Edge(b) && edge_buf_of(helper, es@, b)),
            body matches MemoBody::Edit(vs) ==> (r matches MemoBodyBufElement::Edit(b) && pairs_view(b.edit@) == vs@),
    {
        match body {
            MemoBody::Relation(rs) => MemoBodyBufElement::Relation(RelationSetBufElement::from_relationset(rs, helper)),
            MemoBody::Edge(es) => MemoBodyBufElement::Edge(EdgeSetBufElement::from_edgeset(es, helper)),
            MemoBody::Edit(vs) => {
                let edit = clone_pairs(&vs.0);
                MemoBodyBufElement::Edit(EditBufElement { edit })
            },
            _ => {
                proof {
                    assert(false);
                }
                MemoBodyBufElement::Edit(EditBufElement { edit: Vec::new() })
            },
        }
    }
}

/// A memo as a buffer stores it; its id is not stored, as it depends on the content.
#[derive(Debug)]
pub struct MemoBuf<E, M, S> {
    pub entity: Option<E>,
    pub parents: HeadBufElement<E, M>,
    pub body: MemoBodyBufElement<E, M, S>,
}

impl<E, M, S> MemoBuf<E, M, S> {
    /// The buffer of a memo with a relation, edge or edit body: its subject
    /// (none for an anonymous memo), parents and body as buffer elements.
    pub fn from_memo<H: BufferHelper<EntityToken = E, MemoToken = M, SlabToken = S>>(memo: &crate::slab::Memo, helper: &H) -> (r: Self)
        requires
            memo.body is Relation || memo.body is Edge || memo.body is Edit,
        ensures
            memo.subject_id.stype == crate::slab::SubjectType::Anonymous ==> r.entity is None,
            memo.subject_id.stype != crate::slab::SubjectType::Anonymous ==> r.entity == Some(helper.entity_token(memo.subject_id)),
            head_buf_of(helper, memo.parents@, r.parents),
            memo.body matches MemoBody::Relation(rs) ==> (r.body matches MemoBodyBufElement::Relation(b) && relation_buf_of(
                helper,
                rs@,
                b,
            )),
            memo.body matches MemoBody::Edge(es) ==> (r.body matches MemoBodyBufElement::Edge(b) && edge_buf_of(helper, es@, b)),
            memo.body matches MemoBody::Edit(vs) ==> (r.body matches MemoBodyBufElement::Edit(b) && pairs_view(b.edit@) == vs@),
    {
        let entity = if memo.subject_id.is_anonymous() {
            None
        } else {
            Some(helper.from_entity_id(&memo.subject_id))
        };
        MemoBuf {
            entity,
            parents: HeadBufElement::from_head(&memo.parents, helper),
            body: MemoBodyBufElement::from_body(&memo.body, helper),
        }
    }
}

/// A relation buffer element gives back the relations it was made of,
/// where the helper gives back each subject from its token.
pub proof fn lemma_relation_buf_roundtrip<H: BufferHelper>(
    helper: &H,
    rs: Seq<(RelationSlotId, Option<SubjectId>)>,
    b: RelationSetBufElement<H::EntityToken>,
)
    requires
        relation_buf_of(helper, rs, b),
        forall|s: SubjectId| helper.entity_of(#[trigger] helper.entity_token(s)) == s,
    ensures
        forall|k: int| 0 <= k < rs.len() ==> (b.slots@[k].0, opt_entity_of(helper, #[trigger] b.slots@[k].1)) == rs[k],
{
    assert forall|k: int| 0 <= k < rs.len() implies (b.slots@[k].0, opt_entity_of(helper, #[trigger] b.slots@[k].1)) == rs[k] by {
        match rs[k].1 {
            Some(e) => {
                assert(helper.entity_of(helper.entity_token(e)) == e);
            },
            None => {},
        }
    }
}

/// An edge buffer element gives back the edges it was made of, where the
/// helper gives back each subject and memoref from its token.
pub proof fn lemma_edge_buf_roundtrip<H: BufferHelper>(
    helper: &H,
    es: Seq<(RelationSlotId, HeadView)>,
    b: EdgeSetBufElement<H::EntityToken, H::MemoToken>,
)
    requires
        edge_buf_of(helper, es, b),
        forall|s: SubjectId| helper.entity_of(#[trigger] helper.entity_token(s)) == s,
        forall|m: MemoRef| helper.memoref_of(#[trigger] helper.memo_token(m)) == m,
    ensures
        forall|k: int| 0 <= k < es.len() ==> (b.v@[k].0, head_of_buf(helper, #[trigger] b.v@[k].1)) == es[k],
{
    assert forall|k: int| 0 <= k < es.len() implies (b.v@[k].0, head_of_buf(helper, #[trigger] b.v@[k].1)) == es[k] by {
        let h = es[k].1;
        match h.subject() {
            Some(s) => {
                assert(helper.entity_of(helper.entity_token(s)) == s);
            },
            None => {},
        }
        assert forall|q: int| 0 <= q < h.refs().len() implies helper.memoref_of(helper.memo_token(#[trigger] h.refs()[q])) == h.refs()[q] by {
            assert(helper.memoref_of(helper.memo_token(h.refs()[q])) == h.refs()[q]);
        }
        lemma_head_buf_roundtrip(helper, h, b.v@[k].1);
    }
}

/// The slab's own helper gives back every subject, slab id and memo id from its token.
pub proof fn lemma_slab_state_helper_roundtrip(helper: &SlabStateBufHelper)
    ensures
        forall|s: SubjectId| helper.entity_of(#[trigger] helper.entity_token(s)) == s,
        forall|s: SlabId| helper.slab_of(#[trigger] helper.slab_token(s)) == s,
        forall|m: MemoRef| helper.memo_token(#[trigger] helper.memoref_of(helper.memo_token(m))) == m.memo_id,
{
}

} // verus!
