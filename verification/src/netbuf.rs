use vstd::prelude::*;

use crate::buffer::{clone_pairs, pairs_view};
use crate::error::BufferError;
use crate::memorefhead::HeadView;
use crate::network::{TransportAddress, TransportLiveness};
use crate::slab::{
    BodyView, EdgeSet, Memo, MemoBody, MemoId, MemoPeer, MemoPeerList, MemoPeeringStatus, MemoRef, MemoView, PresenceView,
    RelationSet, RelationSlotId, SlabId, SubjectId, SubjectType,
};
use crate::stash::subject_key;

verus! {

/// A position in the segment list of a network buffer.
pub type SegmentId = u16;

/// The most segments that a network buffer holds: positions fit in a `SegmentId`.
pub const MAX_SEGMENTS: usize = 65536;

/// A peer of a memo in a network buffer: the segment of its slab and its status.
#[derive(Debug)]
pub struct MemoPeerStateBuffer(pub SegmentId, pub MemoPeeringStatus);

/// A memoref in a network buffer: the memo id, the peers (once known), and
/// the segment of its subject.
#[derive(Debug)]
pub struct MemoRefBuffer(pub MemoId, pub Option<Vec<MemoPeerStateBuffer>>, pub SegmentId);

/// The presence of a slab in a network buffer.
#[derive(Debug)]
pub struct SlabPresenceBuffer(pub SegmentId, pub Vec<TransportAddress>, pub TransportLiveness);

/// The edges of a memo in a network buffer: each slot with the segments of its head's memorefs.
#[derive(Debug)]
pub struct EdgeSetBuffer(pub Vec<(RelationSlotId, Vec<SegmentId>)>);

/// The body of a memo in a network buffer.
#[derive(Debug)]
#[allow(inconsistent_fields)]
pub enum MemoBodyBuffer {
    SlabPresence { p: SlabPresenceBuffer, r: Vec<SegmentId> },
    Relation(Vec<(RelationSlotId, Option<SegmentId>)>),
    Edge(EdgeSetBuffer),
    Edit(Vec<(String, String)>),
    FullyMaterialized { v: Vec<(String, String)>, e: EdgeSetBuffer },
    PartiallyMaterialized { v: Vec<(String, String)>, e: EdgeSetBuffer },
    Peering(SegmentId, Vec<MemoPeerStateBuffer>),
    MemoRequest(Vec<SegmentId>, Vec<SegmentId>),
}

/// A memo in a network buffer: the segment of its memoref, those of its parents, and its body.
#[derive(Debug)]
pub struct MemoBuffer(pub SegmentId, pub Vec<SegmentId>, pub MemoBodyBuffer);

/// One segment of a network buffer.
#[derive(Debug)]
pub enum NetbufSegment {
    Subject(SubjectId),
    SlabRef(SlabId),
    MemoRef(MemoRefBuffer),
    Memo(MemoBuffer),
    SlabPresence(SlabPresenceBuffer),
}

/// Segment `off` of `segs` is subject `s`.
pub open spec fn names_subject(segs: Seq<NetbufSegment>, off: int, s: SubjectId) -> bool {
    &&& 0 <= off < segs.len()
    &&& segs[off] matches NetbufSegment::Subject(x) && x == s
}

/// Segment `off` of `segs` is slab `id`.
pub open spec fn names_slab(segs: Seq<NetbufSegment>, off: int, id: SlabId) -> bool {
    &&& 0 <= off < segs.len()
    &&& segs[off] matches NetbufSegment::SlabRef(x) && x == id
}

/// Segment `off` of `segs` is a memoref of memo `m.memo_id`, whose subject
/// segment is subject `m.subject_id`.
pub open spec fn names_memo(segs: Seq<NetbufSegment>, off: int, m: MemoRef) -> bool {
    &&& 0 <= off < segs.len()
    &&& segs[off] matches NetbufSegment::MemoRef(b) && b.0 == m.memo_id && names_subject(segs, b.2 as int, m.subject_id)
}

/// `segs2` holds the segments of `segs1` at the same places, and maybe more after them.
pub open spec fn segments_extend(segs1: Seq<NetbufSegment>, segs2: Seq<NetbufSegment>) -> bool {
    &&& segs1.len() <= segs2.len()
    &&& forall|i: int| 0 <= i < segs1.len() ==> #[trigger] segs2[i] == segs1[i]
}

/// The order of memorefs in the buffer's table: by memo id, then by subject.
pub open spec fn memoref_lt(a: MemoRef, b: MemoRef) -> bool {
    a.memo_id < b.memo_id || (a.memo_id == b.memo_id && subject_key(a.subject_id) < subject_key(b.subject_id))
}

/// Whether `a` comes before `b` in the order of the buffer's memoref table.
fn memoref_before(a: &MemoRef, b: &MemoRef) -> (r: bool)
    ensures
        r == memoref_lt(*a, *b),
{
    if a.memo_id < b.memo_id {
        return true;
    }
    if a.memo_id > b.memo_id {
        return false;
    }
    let ra: u8 = match a.subject_id.stype {
        SubjectType::IndexNode => 0,
        SubjectType::Record => 1,
        SubjectType::Anonymous => 2,
    };
    let rb: u8 = match b.subject_id.stype {
        SubjectType::IndexNode => 0,
        SubjectType::Record => 1,
        SubjectType::Anonymous => 2,
    };
    a.subject_id.id < b.subject_id.id || (a.subject_id.id == b.subject_id.id && ra < rb)
}

/// Whether `a` comes before `b` in the order of subjects.
fn subject_before(a: &SubjectId, b: &SubjectId) -> (r: bool)
    ensures
        r == (subject_key(*a) < subject_key(*b)),
{
    let ra: u8 = match a.stype {
        SubjectType::IndexNode => 0,
        SubjectType::Record => 1,
        SubjectType::Anonymous => 2,
    };
    let rb: u8 = match b.stype {
        SubjectType::IndexNode => 0,
        SubjectType::Record => 1,
        SubjectType::Anonymous => 2,
    };
    a.id < b.id || (a.id == b.id && ra < rb)
}

/// The subject table is sorted and names its segments.
pub open spec fn subject_table_ok(segs: Seq<NetbufSegment>, subj: Seq<(SegmentId, SubjectId)>) -> bool {
    &&& forall|i: int, j: int| 0 <= i < j < subj.len() ==> subject_key(#[trigger] subj[i].1) < subject_key(#[trigger] subj[j].1)
    &&& forall|i: int| 0 <= i < subj.len() ==> names_subject(segs, (#[trigger] subj[i]).0 as int, subj[i].1)
}

/// The memoref table is sorted and names its segments.
pub open spec fn memoref_table_ok(segs: Seq<NetbufSegment>, memo: Seq<(SegmentId, MemoRef, bool)>) -> bool {
    &&& forall|i: int, j: int| 0 <= i < j < memo.len() ==> memoref_lt(#[trigger] memo[i].1, #[trigger] memo[j].1)
    &&& forall|i: int| 0 <= i < memo.len() ==> names_memo(segs, (#[trigger] memo[i]).0 as int, memo[i].1)
}

/// The slab table is sorted and names its segments.
pub open spec fn slab_table_ok(segs: Seq<NetbufSegment>, slab: Seq<(SegmentId, SlabId, bool)>) -> bool {
    &&& forall|i: int, j: int| 0 <= i < j < slab.len() ==> (#[trigger] slab[i].1).0 < (#[trigger] slab[j].1).0
    &&& forall|i: int| 0 <= i < slab.len() ==> names_slab(segs, (#[trigger] slab[i]).0 as int, slab[i].1)
}

/// The three tables of a buffer are sorted and name their segments.
pub open spec fn tables_ok(
    segs: Seq<NetbufSegment>,
    subj: Seq<(SegmentId, SubjectId)>,
    memo: Seq<(SegmentId, MemoRef, bool)>,
    slab: Seq<(SegmentId, SlabId, bool)>,
) -> bool {
    &&& subject_table_ok(segs, subj)
    &&& memoref_table_ok(segs, memo)
    &&& slab_table_ok(segs, slab)
}

/// What a segment list names, a longer one with the same prefix names too.
pub proof fn lemma_tables_extend(
    segs1: Seq<NetbufSegment>,
    segs2: Seq<NetbufSegment>,
    subj: Seq<(SegmentId, SubjectId)>,
    memo: Seq<(SegmentId, MemoRef, bool)>,
    slab: Seq<(SegmentId, SlabId, bool)>,
)
    requires
        segments_extend(segs1, segs2),
        tables_ok(segs1, subj, memo, slab),
    ensures
        tables_ok(segs2, subj, memo, slab),
{
    assert forall|i: int| 0 <= i < subj.len() implies names_subject(segs2, (#[trigger] subj[i]).0 as int, subj[i].1) by {
        assert(segs2[subj[i].0 as int] == segs1[subj[i].0 as int]);
    }
    assert forall|i: int| 0 <= i < memo.len() implies names_memo(segs2, (#[trigger] memo[i]).0 as int, memo[i].1) by {
        let off = memo[i].0 as int;
        assert(segs2[off] == segs1[off]);
        let b = segs1[off]->MemoRef_0;
        assert(segs2[b.2 as int] == segs1[b.2 as int]);
    }
    assert forall|i: int| 0 <= i < slab.len() implies names_slab(segs2, (#[trigger] slab[i]).0 as int, slab[i].1) by {
        assert(segs2[slab[i].0 as int] == segs1[slab[i].0 as int]);
    }
}

/// What a segment list names at `off`, a longer one with the same prefix names too.
pub proof fn lemma_names_extend(segs1: Seq<NetbufSegment>, segs2: Seq<NetbufSegment>, off: int, m: MemoRef, s: SubjectId, id: SlabId)
    requires
        segments_extend(segs1, segs2),
    ensures
        names_subject(segs1, off, s) ==> names_subject(segs2, off, s),
        names_memo(segs1, off, m) ==> names_memo(segs2, off, m),
        names_slab(segs1, off, id) ==> names_slab(segs2, off, id),
{
    if 0 <= off < segs1.len() {
        assert(segs2[off] == segs1[off]);
        if names_memo(segs1, off, m) {
            let b = segs1[off]->MemoRef_0;
            assert(segs2[b.2 as int] == segs1[b.2 as int]);
        }
    }
}

/// Subjects, memorefs and slabs: the keys of the buffer's three tables.
pub type Keys = (Set<SubjectId>, Set<MemoRef>, Set<SlabId>);

/// No keys.
pub open spec fn no_keys() -> Keys {
    (Set::empty(), Set::empty(), Set::empty())
}

/// The keys of `a` and of `b`.
pub open spec fn keys_union(a: Keys, b: Keys) -> Keys {
    (a.0 + b.0, a.1 + b.1, a.2 + b.2)
}

/// Every key of `a` is a key of `b`.
pub open spec fn keys_within(a: Keys, b: Keys) -> bool {
    a.0.subset_of(b.0) && a.1.subset_of(b.1) && a.2.subset_of(b.2)
}

/// The number of keys of `n` that `k` lacks.
pub open spec fn keys_missing(k: Keys, n: Keys) -> int {
    (n.0.difference(k.0).len() + n.1.difference(k.1).len() + n.2.difference(k.2).len()) as int
}

/// The keys a memoref brings: its subject and itself.
pub open spec fn ref_keys(m: MemoRef) -> Keys {
    (set![m.subject_id], set![m], Set::empty())
}

/// The keys that memorefs `refs` bring: their subjects and themselves.
pub open spec fn refs_keys(refs: Seq<MemoRef>) -> Keys {
    (refs.map_values(|r: MemoRef| r.subject_id).to_set(), refs.to_set(), Set::empty())
}

/// The keys that peers bring: their slabs.
pub open spec fn peers_keys(peers: Seq<MemoPeer>) -> Keys {
    (Set::empty(), Set::empty(), peers.map_values(|p: MemoPeer| p.slab_id).to_set())
}

/// The memorefs of the heads of edges `e`, in order.
pub open spec fn edge_refs(e: Seq<(RelationSlotId, HeadView)>) -> Seq<MemoRef>
    decreases e.len(),
{
    if e.len() == 0 {
        Seq::empty()
    } else {
        edge_refs(e.drop_last()) + e.last().1.refs()
    }
}

/// The subjects that relations `rs` point to, in order.
pub open spec fn rel_targets(rs: Seq<(RelationSlotId, Option<SubjectId>)>) -> Seq<SubjectId>
    decreases rs.len(),
{
    if rs.len() == 0 {
        Seq::empty()
    } else {
        match rs.last().1 {
            Some(t) => rel_targets(rs.drop_last()).push(t),
            None => rel_targets(rs.drop_last()),
        }
    }
}

/// The subjects that relations `rs` point to.
pub open spec fn rels_keys(rs: Seq<(RelationSlotId, Option<SubjectId>)>) -> Keys {
    (rel_targets(rs).to_set(), Set::empty(), Set::empty())
}

/// The keys that writing body `b` needs.
pub open spec fn body_keys(b: BodyView) -> Keys {
    match b {
        BodyView::SlabPresence(p, seed) => keys_union((Set::empty(), Set::empty(), set![p.slab_id]), refs_keys(seed.refs())),
        BodyView::Relation(rs) => rels_keys(rs),
        BodyView::Edge(e) => refs_keys(edge_refs(e)),
        BodyView::Edit(_) => no_keys(),
        BodyView::FullyMaterialized(_, _, e, _) => refs_keys(edge_refs(e)),
        BodyView::PartiallyMaterialized(_, _, e, _) => refs_keys(edge_refs(e)),
        BodyView::Peering(id, subj, peers) => keys_union(
            ref_keys(MemoRef { memo_id: id, subject_id: subject_or_anonymous(subj) }),
            peers_keys(peers),
        ),
        BodyView::MemoRequest(ids, slab) => keys_union(refs_keys(anonymous_refs(ids)), (Set::empty(), Set::empty(), set![slab])),
    }
}

/// The keys that writing memo `m` through `memoref` with peers `peers`
/// needs: the memoref and its subject, the peers' slabs when the memoref is
/// new (`had` false), what the body needs, and the parents.
pub open spec fn memo_keys_needed(memoref: MemoRef, peers: Seq<MemoPeer>, m: MemoView, had: bool) -> Keys {
    keys_union(
        keys_union(
            keys_union(ref_keys(memoref), if had { no_keys() } else { peers_keys(peers) }),
            body_keys(m.body),
        ),
        refs_keys(m.parents.refs()),
    )
}

/// From `b0` to `b1` the tables gained only keys of `n`, one segment per
/// new entry; when `ok`, they hold every key of `n`; otherwise the buffer is full.
pub open spec fn step_ok(b0: NetworkBuffer, b1: NetworkBuffer, n: Keys, ok: bool) -> bool {
    &&& keys_within(b0.keys(), b1.keys())
    &&& keys_within(b1.keys(), keys_union(b0.keys(), n))
    &&& b1.segs().len() - b0.segs().len() == b1.tables_len() - b0.tables_len()
    &&& ok ==> keys_within(n, b1.keys())
    &&& !ok ==> b1.segs().len() == MAX_SEGMENTS
}

/// Two steps make one, with the keys of both.
pub proof fn lemma_step_compose(b0: NetworkBuffer, b1: NetworkBuffer, b2: NetworkBuffer, n1: Keys, n2: Keys, ok: bool)
    requires
        step_ok(b0, b1, n1, true),
        step_ok(b1, b2, n2, ok),
    ensures
        step_ok(b0, b2, keys_union(n1, n2), ok),
{
}

/// No step at all.
pub proof fn lemma_step_none(b: NetworkBuffer)
    ensures
        step_ok(b, b, no_keys(), true),
{
}

/// A step that failed, with some keys, failed with more keys too.
pub proof fn lemma_step_widen_failed(b0: NetworkBuffer, b1: NetworkBuffer, n1: Keys, n2: Keys)
    requires
        step_ok(b0, b1, n1, false),
        keys_within(n1, n2),
    ensures
        step_ok(b0, b1, n2, false),
{
}

/// The keys of a prefix one longer: those of the shorter prefix, with the
/// subject and memoref of the next one.
pub proof fn lemma_refs_keys_step(refs: Seq<MemoRef>, i: int)
    requires
        0 <= i < refs.len(),
    ensures
        keys_union(refs_keys(refs.take(i)), ref_keys(refs[i])).0 =~= refs_keys(refs.take(i + 1)).0,
        keys_union(refs_keys(refs.take(i)), ref_keys(refs[i])).1 =~= refs_keys(refs.take(i + 1)).1,
        keys_union(refs_keys(refs.take(i)), ref_keys(refs[i])).2 =~= refs_keys(refs.take(i + 1)).2,
        keys_within(refs_keys(refs.take(i + 1)), refs_keys(refs)),
{
    let a = refs.take(i);
    let b = refs.take(i + 1);
    assert(b =~= a.push(refs[i]));
    lemma_push_to_set(a, refs[i]);
    let f = |r: MemoRef| r.subject_id;
    assert(b.map_values(f) =~= a.map_values(f).push(refs[i].subject_id));
    lemma_push_to_set(a.map_values(f), refs[i].subject_id);
    assert forall|x: MemoRef| b.to_set().contains(x) implies refs.to_set().contains(x) by {
        let k = choose|k: int| 0 <= k < b.len() && b[k] == x;
        assert(refs[k] == x);
    }
    assert forall|x: SubjectId| b.map_values(f).to_set().contains(x) implies refs.map_values(f).to_set().contains(x) by {
        let k = choose|k: int| 0 <= k < b.map_values(f).len() && b.map_values(f)[k] == x;
        assert(refs.map_values(f)[k] == x);
    }
}

/// The slabs of a prefix of peers one longer: those of the shorter prefix
/// and the next peer's.
pub proof fn lemma_peers_keys_step(peers: Seq<MemoPeer>, i: int)
    requires
        0 <= i < peers.len(),
    ensures
        keys_union(peers_keys(peers.take(i)), (Set::empty(), Set::empty(), set![peers[i].slab_id])).0 =~= peers_keys(peers.take(i + 1)).0,
        keys_union(peers_keys(peers.take(i)), (Set::empty(), Set::empty(), set![peers[i].slab_id])).1 =~= peers_keys(peers.take(i + 1)).1,
        keys_union(peers_keys(peers.take(i)), (Set::empty(), Set::empty(), set![peers[i].slab_id])).2 =~= peers_keys(peers.take(i + 1)).2,
        keys_within(peers_keys(peers.take(i + 1)), peers_keys(peers)),
{
    let a = peers.take(i);
    let b = peers.take(i + 1);
    let f = |p: MemoPeer| p.slab_id;
    assert(b =~= a.push(peers[i]));
    assert(b.map_values(f) =~= a.map_values(f).push(peers[i].slab_id));
    lemma_push_to_set(a.map_values(f), peers[i].slab_id);
    assert forall|x: SlabId| b.map_values(f).to_set().contains(x) implies peers.map_values(f).to_set().contains(x) by {
        let k = choose|k: int| 0 <= k < b.map_values(f).len() && b.map_values(f)[k] == x;
        assert(peers.map_values(f)[k] == x);
    }
}

/// The keys of two runs of memorefs together.
pub proof fn lemma_refs_keys_concat(a: Seq<MemoRef>, b: Seq<MemoRef>)
    ensures
        keys_union(refs_keys(a), refs_keys(b)).0 =~= refs_keys(a + b).0,
        keys_union(refs_keys(a), refs_keys(b)).1 =~= refs_keys(a + b).1,
        keys_union(refs_keys(a), refs_keys(b)).2 =~= refs_keys(a + b).2,
{
    let f = |r: MemoRef| r.subject_id;
    assert((a + b).map_values(f) =~= a.map_values(f) + b.map_values(f));
    lemma_concat_to_set(a, b);
    lemma_concat_to_set(a.map_values(f), b.map_values(f));
}

/// The elements of two sequences together.
pub proof fn lemma_concat_to_set<A>(a: Seq<A>, b: Seq<A>)
    ensures
        (a + b).to_set() =~= a.to_set() + b.to_set(),
{
    let t = a + b;
    assert forall|y: A| t.to_set().contains(y) <==> (a.to_set() + b.to_set()).contains(y) by {
        if t.contains(y) {
            let k = choose|k: int| 0 <= k < t.len() && t[k] == y;
            if k < a.len() {
                assert(a[k] == y);
            } else {
                assert(b[k - a.len()] == y);
            }
        }
        if a.contains(y) {
            let k = choose|k: int| 0 <= k < a.len() && a[k] == y;
            assert(t[k] == y);
        }
        if b.contains(y) {
            let k = choose|k: int| 0 <= k < b.len() && b[k] == y;
            assert(t[k + a.len()] == y);
        }
    }
}

/// The edge memorefs of a prefix of edges one longer.
pub proof fn lemma_edge_refs_step(e: Seq<(RelationSlotId, HeadView)>, i: int)
    requires
        0 <= i < e.len(),
    ensures
        edge_refs(e.take(i + 1)) == edge_refs(e.take(i)) + e[i].1.refs(),
{
    assert(e.take(i + 1).drop_last() =~= e.take(i));
}

/// The edge memorefs of a prefix lie among those of all the edges.
pub proof fn lemma_edge_refs_prefix(e: Seq<(RelationSlotId, HeadView)>, i: int)
    requires
        0 <= i <= e.len(),
    ensures
        keys_within(refs_keys(edge_refs(e.take(i))), refs_keys(edge_refs(e))),
    decreases e.len() - i,
{
    if i < e.len() {
        lemma_edge_refs_prefix(e, i + 1);
        lemma_edge_refs_step(e, i);
        lemma_refs_keys_concat(edge_refs(e.take(i)), e[i].1.refs());
    } else {
        assert(e.take(i) =~= e);
    }
}

/// The targets of a prefix of relations one longer.
pub proof fn lemma_rel_targets_step(rs: Seq<(RelationSlotId, Option<SubjectId>)>, i: int)
    requires
        0 <= i < rs.len(),
    ensures
        rel_targets(rs.take(i + 1)) == match rs[i].1 {
            Some(t) => rel_targets(rs.take(i)).push(t),
            None => rel_targets(rs.take(i)),
        },
{
    assert(rs.take(i + 1).drop_last() =~= rs.take(i));
}

/// The targets of a prefix of relations lie among those of all of them.
pub proof fn lemma_rel_targets_prefix(rs: Seq<(RelationSlotId, Option<SubjectId>)>, i: int)
    requires
        0 <= i <= rs.len(),
    ensures
        rel_targets(rs.take(i)).to_set().subset_of(rel_targets(rs).to_set()),
    decreases rs.len() - i,
{
    if i < rs.len() {
        lemma_rel_targets_prefix(rs, i + 1);
        lemma_rel_targets_step(rs, i);
        match rs[i].1 {
            Some(t) => {
                lemma_push_to_set(rel_targets(rs.take(i)), t);
            },
            None => {},
        }
    } else {
        assert(rs.take(i) =~= rs);
    }
}

/// The elements of a sequence with one more: those before and the new one.
pub proof fn lemma_push_to_set<A>(s: Seq<A>, x: A)
    ensures
        s.push(x).to_set() =~= s.to_set().insert(x),
{
    let t = s.push(x);
    assert forall|y: A| t.to_set().contains(y) <==> s.to_set().insert(x).contains(y) by {
        if t.contains(y) {
            let k = choose|k: int| 0 <= k < t.len() && t[k] == y;
            if k < s.len() {
                assert(s[k] == y);
            }
        }
        if s.contains(y) {
            let k = choose|k: int| 0 <= k < s.len() && s[k] == y;
            assert(t[k] == y);
        }
        if y == x {
            assert(t[s.len() as int] == y);
        }
    }
}

/// A step that ended with a full buffer failed, with any keys that include its own.
pub proof fn lemma_step_full(b0: NetworkBuffer, b1: NetworkBuffer, n1: Keys, n2: Keys)
    requires
        step_ok(b0, b1, n1, true),
        keys_within(n1, n2),
        b1.segs().len() == MAX_SEGMENTS,
    ensures
        step_ok(b0, b1, n2, false),
{
}

/// A step whose keys are the same sets is the same step.
pub proof fn lemma_step_same_keys(b0: NetworkBuffer, b1: NetworkBuffer, n1: Keys, n2: Keys, ok: bool)
    requires
        step_ok(b0, b1, n1, ok),
        n1.0 =~= n2.0,
        n1.1 =~= n2.1,
        n1.2 =~= n2.2,
    ensures
        step_ok(b0, b1, n2, ok),
{
    assert(n1 == n2);
}

/// The keys of a table after an insertion are those before and the new one.
pub proof fn lemma_keys_insert<A, B>(t: Seq<A>, i: int, e: A, f: spec_fn(A) -> B)
    requires
        0 <= i <= t.len(),
    ensures
        t.insert(i, e).map_values(f).to_set() =~= t.map_values(f).to_set().insert(f(e)),
{
    let u = t.insert(i, e);
    assert forall|x: B| u.map_values(f).to_set().contains(x) <==> t.map_values(f).to_set().insert(f(e)).contains(x) by {
        if u.map_values(f).contains(x) {
            let k = choose|k: int| 0 <= k < u.map_values(f).len() && u.map_values(f)[k] == x;
            if k < i {
                assert(t.map_values(f)[k] == x);
            } else if k > i {
                assert(t.map_values(f)[k - 1] == x);
            }
        }
        if t.map_values(f).contains(x) {
            let k = choose|k: int| 0 <= k < t.map_values(f).len() && t.map_values(f)[k] == x;
            if k < i {
                assert(u.map_values(f)[k] == x);
            } else {
                assert(u.map_values(f)[k + 1] == x);
            }
        }
        if x == f(e) {
            assert(u.map_values(f)[i] == x);
        }
    }
}

/// The segments that writing memo `m` through `memoref` with peers `peers`
/// adds to buffer `b`: one for each subject, memoref and slab it needs that
/// the buffer's tables lack, and one for the memo.
pub open spec fn segments_needed(b: NetworkBuffer, memoref: MemoRef, peers: Seq<MemoPeer>, m: MemoView) -> int {
    keys_missing(b.keys(), memo_keys_needed(memoref, peers, m, b.has_memoref(memoref))) + 1
}

/// The keys that a memo needs are finitely many.
pub proof fn lemma_needed_finite(memoref: MemoRef, peers: Seq<MemoPeer>, m: MemoView, had: bool)
    ensures
        memo_keys_needed(memoref, peers, m, had).0.finite(),
        memo_keys_needed(memoref, peers, m, had).1.finite(),
        memo_keys_needed(memoref, peers, m, had).2.finite(),
{
    broadcast use vstd::seq_lib::seq_to_set_is_finite, vstd::set::group_set_axioms;

}

/// How a step that stayed within its keys changes the number of table
/// entries: by the keys gained, at most those that `n` adds to `b0`'s keys,
/// exactly those when the step holds all of `n`.
proof fn lemma_step_count<A>(k0: Set<A>, k1: Set<A>, n: Set<A>, all: bool)
    requires
        k0.finite(),
        k1.finite(),
        n.finite(),
        k0.subset_of(k1),
        k1.subset_of(k0 + n),
        all ==> n.subset_of(k1),
    ensures
        k1.len() <= k0.len() + n.difference(k0).len(),
        all ==> k1.len() == k0.len() + n.difference(k0).len(),
{
    let d = k1.difference(k0);
    assert(k1 =~= k0 + d);
    assert(k0.disjoint(d));
    vstd::set_lib::lemma_set_disjoint_lens(k0, d);
    assert(d.subset_of(n.difference(k0)));
    vstd::set_lib::lemma_len_subset(d, n.difference(k0));
    if all {
        assert(d =~= n.difference(k0));
    }
}

/// A buffer of segments that encodes memos compactly for the network: each
/// subject, slab and memoref is written once, and referred to by position.
pub struct NetworkBuffer {
    segments: Vec<NetbufSegment>,
    subject_offsets: Vec<(SegmentId, SubjectId)>,
    memoref_offsets: Vec<(SegmentId, MemoRef, bool)>,
    slabref_offsets: Vec<(SegmentId, SlabId, bool)>,
}

impl NetworkBuffer {
    /// The segments, in order.
    pub closed spec fn segs(&self) -> Seq<NetbufSegment> {
        self.segments@
    }

    /// The keys of the tables.
    pub closed spec fn keys(&self) -> Keys {
        (
            self.subject_offsets@.map_values(|e: (SegmentId, SubjectId)| e.1).to_set(),
            self.memoref_offsets@.map_values(|e: (SegmentId, MemoRef, bool)| e.1).to_set(),
            self.slabref_offsets@.map_values(|e: (SegmentId, SlabId, bool)| e.1).to_set(),
        )
    }

    /// The tables of a well-formed buffer hold each key once.
    pub proof fn lemma_keys_count(&self)
        requires
            self.wf(),
        ensures
            self.keys().0.finite(),
            self.keys().1.finite(),
            self.keys().2.finite(),
            self.tables_len() == self.keys().0.len() + self.keys().1.len() + self.keys().2.len(),
    {
        broadcast use vstd::seq_lib::seq_to_set_is_finite;

        let a = self.subject_offsets@.map_values(|e: (SegmentId, SubjectId)| e.1);
        let b = self.memoref_offsets@.map_values(|e: (SegmentId, MemoRef, bool)| e.1);
        let c = self.slabref_offsets@.map_values(|e: (SegmentId, SlabId, bool)| e.1);
        assert(a.no_duplicates()) by {
            assert forall|i: int, j: int| 0 <= i < a.len() && 0 <= j < a.len() && i != j implies a[i] != a[j] by {
                if i < j {
                    assert(subject_key(self.subject_offsets@[i].1) < subject_key(self.subject_offsets@[j].1));
                } else {
                    assert(subject_key(self.subject_offsets@[j].1) < subject_key(self.subject_offsets@[i].1));
                }
            }
        }
        assert(b.no_duplicates()) by {
            assert forall|i: int, j: int| 0 <= i < b.len() && 0 <= j < b.len() && i != j implies b[i] != b[j] by {
                if i < j {
                    assert(memoref_lt(self.memoref_offsets@[i].1, self.memoref_offsets@[j].1));
                } else {
                    assert(memoref_lt(self.memoref_offsets@[j].1, self.memoref_offsets@[i].1));
                }
            }
        }
        assert(c.no_duplicates()) by {
            assert forall|i: int, j: int| 0 <= i < c.len() && 0 <= j < c.len() && i != j implies c[i] != c[j] by {
                if i < j {
                    assert(self.slabref_offsets@[i].1.0 < self.slabref_offsets@[j].1.0);
                } else {
                    assert(self.slabref_offsets@[j].1.0 < self.slabref_offsets@[i].1.0);
                }
            }
        }
        a.unique_seq_to_set();
        b.unique_seq_to_set();
        c.unique_seq_to_set();
    }

    /// The entries of the tables.
    pub closed spec fn tables_len(&self) -> int {
        (self.subject_offsets@.len() + self.memoref_offsets@.len() + self.slabref_offsets@.len()) as int
    }

    /// The buffer is well formed: its tables are sorted and name the
    /// segments they point to, and every position fits a `SegmentId`.
    pub closed spec fn wf(&self) -> bool {
        &&& self.segments@.len() <= MAX_SEGMENTS
        &&& tables_ok(self.segments@, self.subject_offsets@, self.memoref_offsets@, self.slabref_offsets@)
    }

    /// An empty buffer.
    pub fn new() -> (r: NetworkBuffer)
        ensures
            r.wf(),
            r.segs() == Seq::<NetbufSegment>::empty(),
    {
        let r = NetworkBuffer {
            segments: Vec::new(),
            subject_offsets: Vec::new(),
            memoref_offsets: Vec::new(),
            slabref_offsets: Vec::new(),
        };
        proof {
            assert(r.segs() =~= Seq::<NetbufSegment>::empty());
        }
        r
    }

    /// The segment of subject `subject_id`, written when the buffer has none yet.
    fn add_subject(&mut self, subject_id: SubjectId) -> (r: Option<SegmentId>)
        requires
            old(self).wf(),
        ensures
            final(self).wf(),
            r matches Some(x) ==> names_subject(final(self).segs(), x as int, subject_id),
            r is None ==> final(self).segs() == old(self).segs() && old(self).segs().len() == MAX_SEGMENTS,
            segments_extend(old(self).segs(), final(self).segs()),
            final(self).segs().len() <= old(self).segs().len() + 1,
            final(self).memoref_offsets@ == old(self).memoref_offsets@,
            final(self).slabref_offsets@ == old(self).slabref_offsets@,
            step_ok(*old(self), *final(self), (set![subject_id], Set::empty(), Set::empty()), r is Some),
    {
        let ghost tab = self.subject_offsets@;
        let mut lo: usize = 0;
        let mut hi: usize = self.subject_offsets.len();
        while lo < hi
            invariant
                tab == self.subject_offsets@,
                self.wf(),
                lo <= hi <= tab.len(),
                forall|j: int| 0 <= j < lo ==> subject_key(#[trigger] tab[j].1) < subject_key(subject_id),
                forall|j: int| hi <= j < tab.len() ==> subject_key(subject_id) < subject_key(#[trigger] tab[j].1),
            decreases hi - lo,
        {
            let mid = lo + (hi - lo) / 2;
            let e = self.subject_offsets[mid].1;
            if e == subject_id {
                proof {
                    assert(names_subject(self.segments@, tab[mid as int].0 as int, subject_id));
                    assert(tab.map_values(|e: (SegmentId, SubjectId)| e.1)[mid as int] == subject_id);
                    assert(self.keys().0.contains(subject_id));
                }
                return Some(self.subject_offsets[mid].0);
            }
            proof {
                crate::stash::lemma_subject_key_injective(e, subject_id);
            }
            if subject_before(&e, &subject_id) {
                proof {
                    assert forall|j: int| 0 <= j < mid + 1 implies subject_key(#[trigger] tab[j].1) < subject_key(subject_id) by {
                        if j < mid {
                            assert(subject_key(tab[j].1) < subject_key(tab[mid as int].1));
                        }
                    }
                }
                lo = mid + 1;
            } else {
                proof {
                    assert forall|j: int| mid <= j < tab.len() implies subject_key(subject_id) < subject_key(#[trigger] tab[j].1) by {
                        if j > mid {
                            assert(subject_key(tab[mid as int].1) < subject_key(tab[j].1));
                        }
                    }
                }
                hi = mid;
            }
        }
        if self.segments.len() >= MAX_SEGMENTS {
            return None;
        }
        let ghost segs0 = self.segments@;
        self.segments.push(NetbufSegment::Subject(subject_id));
        let seg = (self.segments.len() - 1) as u16;
        proof {
            assert(segments_extend(segs0, self.segments@));
            lemma_tables_extend(segs0, self.segments@, tab, self.memoref_offsets@, self.slabref_offsets@);
        }
        self.subject_offsets.insert(lo, (seg, subject_id));
        proof {
            let t2 = self.subject_offsets@;
            assert(t2 =~= tab.insert(lo as int, (seg, subject_id)));
            lemma_keys_insert(tab, lo as int, (seg, subject_id), |e: (SegmentId, SubjectId)| e.1);
            assert forall|a: int, b: int| 0 <= a < b < t2.len() implies subject_key(#[trigger] t2[a].1) < subject_key(#[trigger] t2[b].1) by {
                if b < lo {
                    assert(t2[a] == tab[a] && t2[b] == tab[b]);
                } else if b == lo {
                    assert(t2[a] == tab[a]);
                } else if a < lo {
                    assert(t2[a] == tab[a] && t2[b] == tab[b - 1]);
                } else if a == lo {
                    assert(t2[b] == tab[b - 1]);
                } else {
                    assert(t2[a] == tab[a - 1] && t2[b] == tab[b - 1]);
                }
            }
            assert forall|i: int| 0 <= i < t2.len() implies names_subject(self.segments@, (#[trigger] t2[i]).0 as int, t2[i].1) by {
                if i < lo {
                    assert(t2[i] == tab[i]);
                } else if i > lo {
                    assert(t2[i] == tab[i - 1]);
                }
            }
        }
        Some(seg)
    }

    /// The segment of slab `slab_id`, written when the buffer has none yet.
    fn add_slabref(&mut self, slab_id: SlabId) -> (r: Option<SegmentId>)
        requires
            old(self).wf(),
        ensures
            final(self).wf(),
            r matches Some(x) ==> names_slab(final(self).segs(), x as int, slab_id),
            r is None ==> final(self).segs() == old(self).segs() && old(self).segs().len() == MAX_SEGMENTS,
            r is None ==> !slab_listed(final(self).slabref_offsets@, slab_id),
            segments_extend(old(self).segs(), final(self).segs()),
            final(self).segs().len() <= old(self).segs().len() + 1,
            final(self).memoref_offsets@ == old(self).memoref_offsets@,
            final(self).subject_offsets@ == old(self).subject_offsets@,
            step_ok(*old(self), *final(self), (Set::empty(), Set::empty(), set![slab_id]), r is Some),
    {
        let ghost tab = self.slabref_offsets@;
        let mut lo: usize = 0;
        let mut hi: usize = self.slabref_offsets.len();
        while lo < hi
            invariant
                tab == self.slabref_offsets@,
                self.wf(),
                lo <= hi <= tab.len(),
                forall|j: int| 0 <= j < lo ==> (#[trigger] tab[j].1).0 < slab_id.0,
                forall|j: int| hi <= j < tab.len() ==> slab_id.0 < (#[trigger] tab[j].1).0,
            decreases hi - lo,
        {
            let mid = lo + (hi - lo) / 2;
            let e = self.slabref_offsets[mid].1;
            if e.0 == slab_id.0 {
                proof {
                    assert(names_slab(self.segments@, tab[mid as int].0 as int, tab[mid as int].1));
                    assert(tab[mid as int].1 == slab_id);
                    assert(tab.map_values(|e: (SegmentId, SlabId, bool)| e.1)[mid as int] == slab_id);
                    assert(self.keys().2.contains(slab_id));
                }
                return Some(self.slabref_offsets[mid].0);
            }
            if e.0 < slab_id.0 {
                proof {
                    assert forall|j: int| 0 <= j < mid + 1 implies (#[trigger] tab[j].1).0 < slab_id.0 by {
                        if j < mid {
                            assert(tab[j].1.0 < tab[mid as int].1.0);
                        }
                    }
                }
                lo = mid + 1;
            } else {
                proof {
                    assert forall|j: int| mid <= j < tab.len() implies slab_id.0 < (#[trigger] tab[j].1).0 by {
                        if j > mid {
                            assert(tab[mid as int].1.0 < tab[j].1.0);
                        }
                    }
                }
                hi = mid;
            }
        }
        if self.segments.len() >= MAX_SEGMENTS {
            proof {
                assert forall|j: int| 0 <= j < tab.len() implies (#[trigger] tab[j]).1 != slab_id by {
                    if j < lo {
                        assert(tab[j].1.0 < slab_id.0);
                    } else {
                        assert(slab_id.0 < tab[j].1.0);
                    }
                }
            }
            return None;
        }
        let ghost segs0 = self.segments@;
        self.segments.push(NetbufSegment::SlabRef(slab_id));
        let seg = (self.segments.len() - 1) as u16;
        proof {
            assert(segments_extend(segs0, self.segments@));
            lemma_tables_extend(segs0, self.segments@, self.subject_offsets@, self.memoref_offsets@, tab);
        }
        self.slabref_offsets.insert(lo, (seg, slab_id, false));
        proof {
            let t2 = self.slabref_offsets@;
            assert(t2 =~= tab.insert(lo as int, (seg, slab_id, false)));
            lemma_keys_insert(tab, lo as int, (seg, slab_id, false), |e: (SegmentId, SlabId, bool)| e.1);
            assert forall|a: int, b: int| 0 <= a < b < t2.len() implies (#[trigger] t2[a].1).0 < (#[trigger] t2[b].1).0 by {
                if b < lo {
                    assert(t2[a] == tab[a] && t2[b] == tab[b]);
                } else if b == lo {
                    assert(t2[a] == tab[a]);
                } else if a < lo {
                    assert(t2[a] == tab[a] && t2[b] == tab[b - 1]);
                } else if a == lo {
                    assert(t2[b] == tab[b - 1]);
                } else {
                    assert(t2[a] == tab[a - 1] && t2[b] == tab[b - 1]);
                }
            }
            assert forall|i: int| 0 <= i < t2.len() implies names_slab(self.segments@, (#[trigger] t2[i]).0 as int, t2[i].1) by {
                if i < lo {
                    assert(t2[i] == tab[i]);
                } else if i > lo {
                    assert(t2[i] == tab[i - 1]);
                }
            }
        }
        Some(seg)
    }

    /// Where memoref `m` is (`Ok`) or would go (`Err`) in the memoref table.
    fn search_memoref(&self, m: &MemoRef) -> (r: Result<usize, usize>)
        requires
            self.wf(),
        ensures
            r matches Ok(k) ==> k < self.memoref_offsets@.len() && self.memoref_offsets@[k as int].1 == *m,
            r matches Err(k) ==> {
                &&& k <= self.memoref_offsets@.len()
                &&& forall|j: int| 0 <= j < k ==> memoref_lt(#[trigger] self.memoref_offsets@[j].1, *m)
                &&& forall|j: int| k <= j < self.memoref_offsets@.len() ==> memoref_lt(*m, #[trigger] self.memoref_offsets@[j].1)
            },
    {
        let ghost tab = self.memoref_offsets@;
        let mut lo: usize = 0;
        let mut hi: usize = self.memoref_offsets.len();
        while lo < hi
            invariant
                tab == self.memoref_offsets@,
                self.wf(),
                lo <= hi <= tab.len(),
                forall|j: int| 0 <= j < lo ==> memoref_lt(#[trigger] tab[j].1, *m),
                forall|j: int| hi <= j < tab.len() ==> memoref_lt(*m, #[trigger] tab[j].1),
            decreases hi - lo,
        {
            let mid = lo + (hi - lo) / 2;
            let e = self.memoref_offsets[mid].1;
            if e == *m {
                return Ok(mid);
            }
            proof {
                crate::stash::lemma_subject_key_injective(e.subject_id, m.subject_id);
            }
            if memoref_before(&e, m) {
                proof {
                    assert forall|j: int| 0 <= j < mid + 1 implies memoref_lt(#[trigger] tab[j].1, *m) by {
                        if j < mid {
                            assert(memoref_lt(tab[j].1, tab[mid as int].1));
                        }
                    }
                }
                lo = mid + 1;
            } else {
                proof {
                    assert forall|j: int| mid <= j < tab.len() implies memoref_lt(*m, #[trigger] tab[j].1) by {
                        if j > mid {
                            assert(memoref_lt(tab[mid as int].1, tab[j].1));
                        }
                    }
                }
                hi = mid;
            }
        }
        Err(lo)
    }

    /// Whether the memoref table holds `m`.
    pub closed spec fn has_memoref(&self, m: MemoRef) -> bool {
        exists|i: int| 0 <= i < self.memoref_offsets@.len() && (#[trigger] self.memoref_offsets@[i]).1 == m
    }

    /// The subject table: segment and subject.
    pub closed spec fn subject_entries(&self) -> Seq<(SegmentId, SubjectId)> {
        self.subject_offsets@
    }

    /// The memoref table: segment, memoref, and whether its peers were written.
    pub closed spec fn memoref_entries(&self) -> Seq<(SegmentId, MemoRef, bool)> {
        self.memoref_offsets@
    }

    /// The slab table: segment, slab, and whether its presence was written.
    pub closed spec fn slabref_entries(&self) -> Seq<(SegmentId, SlabId, bool)> {
        self.slabref_offsets@
    }

    /// Records a new memoref segment in the memoref table at position `pos`.
    fn insert_memoref(&mut self, pos: usize, m: MemoRef, segment: NetbufSegment, with_peers: bool) -> (r: SegmentId)
        requires
            old(self).wf(),
            old(self).segs().len() < MAX_SEGMENTS,
            segment matches NetbufSegment::MemoRef(b) && b.0 == m.memo_id && names_subject(old(self).segs(), b.2 as int, m.subject_id),
            pos <= old(self).memoref_offsets@.len(),
            forall|j: int| 0 <= j < pos ==> memoref_lt(#[trigger] old(self).memoref_offsets@[j].1, m),
            forall|j: int| pos <= j < old(self).memoref_offsets@.len() ==> memoref_lt(m, #[trigger] old(self).memoref_offsets@[j].1),
        ensures
            final(self).wf(),
            r as int == old(self).segs().len(),
            final(self).segs() == old(self).segs().push(segment),
            names_memo(final(self).segs(), r as int, m),
            final(self).has_memoref(m),
            final(self).subject_offsets@ == old(self).subject_offsets@,
            final(self).slabref_offsets@ == old(self).slabref_offsets@,
            final(self).keys() == (old(self).keys().0, old(self).keys().1.insert(m), old(self).keys().2),
            final(self).tables_len() == old(self).tables_len() + 1,
    {
        let ghost tab = self.memoref_offsets@;
        let ghost segs0 = self.segments@;
        let ghost sv = segment;
        self.segments.push(segment);
        let seg = (self.segments.len() - 1) as u16;
        proof {
            assert(segments_extend(segs0, self.segments@));
            lemma_tables_extend(segs0, self.segments@, self.subject_offsets@, tab, self.slabref_offsets@);
            let b = sv->MemoRef_0;
            lemma_names_extend(segs0, self.segments@, b.2 as int, m, m.subject_id, SlabId(0));
            assert(self.segments@[seg as int] == sv);
        }
        self.memoref_offsets.insert(pos, (seg, m, with_peers));
        proof {
            let t2 = self.memoref_offsets@;
            assert(t2 =~= tab.insert(pos as int, (seg, m, with_peers)));
            lemma_keys_insert(tab, pos as int, (seg, m, with_peers), |e: (SegmentId, MemoRef, bool)| e.1);
            assert forall|a: int, b: int| 0 <= a < b < t2.len() implies memoref_lt(#[trigger] t2[a].1, #[trigger] t2[b].1) by {
                if b < pos {
                    assert(t2[a] == tab[a] && t2[b] == tab[b]);
                } else if b == pos {
                    assert(t2[a] == tab[a]);
                } else if a < pos {
                    assert(t2[a] == tab[a] && t2[b] == tab[b - 1]);
                    assert(memoref_lt(tab[a].1, m) && memoref_lt(m, tab[b - 1].1));
                } else if a == pos {
                    assert(t2[b] == tab[b - 1]);
                } else {
                    assert(t2[a] == tab[a - 1] && t2[b] == tab[b - 1]);
                }
            }
            assert forall|i: int| 0 <= i < t2.len() implies names_memo(self.segments@, (#[trigger] t2[i]).0 as int, t2[i].1) by {
                if i < pos {
                    assert(t2[i] == tab[i]);
                } else if i > pos {
                    assert(t2[i] == tab[i - 1]);
                }
            }
            assert(t2[pos as int].1 == m);
        }
        seg
    }

    /// The segment of memoref `m`, written (without peers, under subject
    /// segment `subj_offset`) when the buffer has none yet.
    fn add_memoref(&mut self, m: &MemoRef, subj_offset: SegmentId) -> (r: Option<SegmentId>)
        requires
            old(self).wf(),
            names_subject(old(self).segs(), subj_offset as int, m.subject_id),
        ensures
            final(self).wf(),
            r matches Some(x) ==> names_memo(final(self).segs(), x as int, *m),
            r is None ==> final(self).segs() == old(self).segs() && old(self).segs().len() == MAX_SEGMENTS,
            segments_extend(old(self).segs(), final(self).segs()),
            final(self).segs().len() <= old(self).segs().len() + 1,
            step_ok(*old(self), *final(self), (Set::empty(), set![*m], Set::empty()), r is Some),
    {
        match self.search_memoref(m) {
            Ok(k) => {
                proof {
                    assert(names_memo(self.segments@, self.memoref_offsets@[k as int].0 as int, self.memoref_offsets@[k as int].1));
                    assert(self.memoref_offsets@.map_values(|e: (SegmentId, MemoRef, bool)| e.1)[k as int] == *m);
                    assert(self.keys().1.contains(*m));
                }
                Some(self.memoref_offsets[k].0)
            },
            Err(k) => {
                if self.segments.len() >= MAX_SEGMENTS {
                    return None;
                }
                let seg = self.insert_memoref(k, *m, NetbufSegment::MemoRef(MemoRefBuffer(m.memo_id, None, subj_offset)), false);
                proof {
                    assert(segments_extend(old(self).segs(), self.segs()));
                }
                Some(seg)
            },
        }
    }

    /// The segment of memoref `m`, with the segment of its subject.
    fn add_memoref_of(&mut self, m: &MemoRef) -> (r: Option<SegmentId>)
        requires
            old(self).wf(),
        ensures
            final(self).wf(),
            r matches Some(x) ==> names_memo(final(self).segs(), x as int, *m),
            r is None ==> old(self).segs().len() + 2 > MAX_SEGMENTS,
            segments_extend(old(self).segs(), final(self).segs()),
            final(self).segs().len() <= old(self).segs().len() + 2,
            step_ok(*old(self), *final(self), ref_keys(*m), r is Some),
    {
        let subj = match self.add_subject(m.subject_id) {
            Some(x) => x,
            None => {
                proof {
                    lemma_step_widen_failed(*old(self), *self, (set![m.subject_id], Set::empty(), Set::empty()), ref_keys(*m));
                }
                return None;
            },
        };
        let ghost mid = *self;
        let r = self.add_memoref(m, subj);
        proof {
            assert(segments_extend(old(self).segs(), self.segs()));
            lemma_step_compose(*old(self), mid, *self, (set![m.subject_id], Set::empty(), Set::empty()), (Set::empty(), set![*m], Set::empty()), r is Some);
            lemma_step_same_keys(*old(self), *self, keys_union((set![m.subject_id], Set::empty(), Set::empty()), (Set::empty(), set![*m], Set::empty())), ref_keys(*m), r is Some);
        }
        r
    }

    /// The segments of memorefs `refs`, in order.
    fn add_memorefs(&mut self, refs: &Vec<MemoRef>) -> (r: Option<Vec<SegmentId>>)
        requires
            old(self).wf(),
        ensures
            final(self).wf(),
            r matches Some(v) ==> refs_encoded(final(self).segs(), v@, refs@),
            r is None ==> old(self).segs().len() + 2 * refs@.len() > MAX_SEGMENTS,
            segments_extend(old(self).segs(), final(self).segs()),
            final(self).segs().len() <= old(self).segs().len() + 2 * refs@.len(),
            step_ok(*old(self), *final(self), refs_keys(refs@), r is Some),
    {
        proof {
            lemma_step_none(*self);
            lemma_step_same_keys(*self, *self, no_keys(), refs_keys(refs@.take(0)), true);
        }
        let n = refs.len();
        let mut r: Vec<SegmentId> = Vec::new();
        let mut i: usize = 0;
        while i < n
            invariant
                n == refs@.len(),
                i <= n,
                self.wf(),
                segments_extend(old(self).segs(), self.segs()),
                self.segs().len() <= old(self).segs().len() + 2 * i,
                refs_encoded(self.segs(), r@, refs@.take(i as int)),
                step_ok(*old(self), *self, refs_keys(refs@.take(i as int)), true),
            decreases n - i,
        {
            let ghost segs_before = self.segs();
            let ghost mid = *self;
            proof {
                lemma_refs_keys_step(refs@, i as int);
            }
            let off = match self.add_memoref_of(&refs[i]) {
                Some(x) => x,
                None => {
                    proof {
                        lemma_step_compose(*old(self), mid, *self, refs_keys(refs@.take(i as int)), ref_keys(refs@[i as int]), false);
                        lemma_step_widen_failed(*old(self), *self, keys_union(refs_keys(refs@.take(i as int)), ref_keys(refs@[i as int])), refs_keys(refs@));
                    }
                    return None;
                },
            };
            proof {
                lemma_step_compose(*old(self), mid, *self, refs_keys(refs@.take(i as int)), ref_keys(refs@[i as int]), true);
                lemma_step_same_keys(*old(self), *self, keys_union(refs_keys(refs@.take(i as int)), ref_keys(refs@[i as int])), refs_keys(refs@.take(i + 1)), true);
                lemma_refs_encoded_extend(segs_before, self.segs(), r@, refs@.take(i as int));
            }
            r.push(off);
            proof {
                assert(refs@.take(i + 1) =~= refs@.take(i as int).push(refs@[i as int]));
            }
            i = i + 1;
        }
        proof {
            assert(refs@.take(n as int) =~= refs@);
        }
        Some(r)
    }

    /// The peers of a memo as buffer elements, adding the segments of their slabs.
    fn peer_states(&mut self, peerset: &MemoPeerList) -> (r: Option<Vec<MemoPeerStateBuffer>>)
        requires
            old(self).wf(),
        ensures
            final(self).wf(),
            segments_extend(old(self).segs(), final(self).segs()),
            final(self).segs().len() <= old(self).segs().len() + peerset.0@.len(),
            final(self).memoref_offsets@ == old(self).memoref_offsets@,
            r matches Some(v) ==> peers_encoded(final(self).segs(), v@, peerset.0@),
            r is None ==> old(self).segs().len() + peerset.0@.len() > MAX_SEGMENTS,
            step_ok(*old(self), *final(self), peers_keys(peerset.0@), r is Some),
            r is None ==> final(self).segs().len() == MAX_SEGMENTS && !peers_listed(final(self).slabref_offsets@, peerset.0@),
    {
        let n = peerset.0.len();
        let mut r: Vec<MemoPeerStateBuffer> = Vec::new();
        let mut i: usize = 0;
        proof {
            lemma_step_none(*self);
            lemma_step_same_keys(*self, *self, no_keys(), peers_keys(peerset.0@.take(0)), true);
        }
        while i < n
            invariant
                n == peerset.0@.len(),
                i <= n,
                self.wf(),
                segments_extend(old(self).segs(), self.segs()),
                self.segs().len() <= old(self).segs().len() + i,
                self.memoref_offsets@ == old(self).memoref_offsets@,
                peers_encoded(self.segs(), r@, peerset.0@.take(i as int)),
                step_ok(*old(self), *self, peers_keys(peerset.0@.take(i as int)), true),
            decreases n - i,
        {
            let ghost segs_before = self.segs();
            let ghost mid = *self;
            let peer = peerset.0[i];
            proof {
                lemma_peers_keys_step(peerset.0@, i as int);
            }
            let off = match self.add_slabref(peer.slab_id) {
                Some(x) => x,
                None => {
                    proof {
                        lemma_step_compose(*old(self), mid, *self, peers_keys(peerset.0@.take(i as int)), (Set::empty(), Set::empty(), set![peer.slab_id]), false);
                        lemma_step_widen_failed(*old(self), *self, keys_union(peers_keys(peerset.0@.take(i as int)), (Set::empty(), Set::empty(), set![peer.slab_id])), peers_keys(peerset.0@));
                        assert(peerset.0@[i as int].slab_id == peer.slab_id);
                        assert(!slab_listed(self.slabref_offsets@, peerset.0@[i as int].slab_id));
                    }
                    return None;
                },
            };
            proof {
                lemma_step_compose(*old(self), mid, *self, peers_keys(peerset.0@.take(i as int)), (Set::empty(), Set::empty(), set![peer.slab_id]), true);
                lemma_step_same_keys(*old(self), *self, keys_union(peers_keys(peerset.0@.take(i as int)), (Set::empty(), Set::empty(), set![peer.slab_id])), peers_keys(peerset.0@.take(i + 1)), true);
                lemma_peers_encoded_extend(segs_before, self.segs(), r@, peerset.0@.take(i as int));
            }
            r.push(MemoPeerStateBuffer(off, peer.status));
            proof {
                assert(peerset.0@.take(i + 1) =~= peerset.0@.take(i as int).push(peerset.0@[i as int]));
            }
            i = i + 1;
        }
        proof {
            assert(peerset.0@.take(n as int) =~= peerset.0@);
        }
        Some(r)
    }

    /// The segment of memoref `m`, written with its peers (and their slabs)
    /// under subject segment `subj_offset` when the buffer has none yet.
    fn add_memoref_and_peerset(&mut self, m: &MemoRef, subj_offset: SegmentId, peerset: &MemoPeerList) -> (r: Option<SegmentId>)
        requires
            old(self).wf(),
            names_subject(old(self).segs(), subj_offset as int, m.subject_id),
        ensures
            final(self).wf(),
            r matches Some(x) ==> names_memo(final(self).segs(), x as int, *m),
            r is None ==> old(self).segs().len() + peerset.0@.len() + 1 > MAX_SEGMENTS,
            segments_extend(old(self).segs(), final(self).segs()),
            final(self).segs().len() <= old(self).segs().len() + peerset.0@.len() + 1,
            r matches Some(x) ==> (!old(self).has_memoref(*m) ==> memoref_peers_written(final(self).segs(), x as int, peerset.0@)),
            step_ok(
                *old(self),
                *final(self),
                keys_union(
                    (Set::empty(), set![*m], Set::empty()),
                    if old(self).has_memoref(*m) {
                        no_keys()
                    } else {
                        peers_keys(peerset.0@)
                    },
                ),
                r is Some,
            ),
    {
        let ghost mk = (Set::<SubjectId>::empty(), set![*m], Set::<SlabId>::empty());
        match self.search_memoref(m) {
            Ok(k) => {
                proof {
                    assert(names_memo(self.segments@, self.memoref_offsets@[k as int].0 as int, self.memoref_offsets@[k as int].1));
                    assert(self.has_memoref(*m));
                    assert(self.memoref_offsets@.map_values(|e: (SegmentId, MemoRef, bool)| e.1)[k as int] == *m);
                    assert(self.keys().1.contains(*m));
                    lemma_step_none(*self);
                    assert(keys_within(keys_union(mk, no_keys()), self.keys()));
                }
                Some(self.memoref_offsets[k].0)
            },
            Err(k) => {
                let ghost segs0 = self.segments@;
                let ghost n_all = keys_union(mk, peers_keys(peerset.0@));
                proof {
                    assert(!self.has_memoref(*m)) by {
                        if self.has_memoref(*m) {
                            let j = choose|j: int| 0 <= j < self.memoref_offsets@.len() && (#[trigger] self.memoref_offsets@[j]).1 == *m;
                            if j < k {
                                assert(memoref_lt(self.memoref_offsets@[j].1, *m));
                            } else {
                                assert(memoref_lt(*m, self.memoref_offsets@[j].1));
                            }
                        }
                    }
                }
                let states = match self.peer_states(peerset) {
                    Some(v) => v,
                    None => {
                        proof {
                            lemma_step_widen_failed(*old(self), *self, peers_keys(peerset.0@), n_all);
                        }
                        return None;
                    },
                };
                if self.segments.len() >= MAX_SEGMENTS {
                    proof {
                        lemma_step_full(*old(self), *self, peers_keys(peerset.0@), n_all);
                    }
                    return None;
                }
                let ghost s1 = *self;
                proof {
                    lemma_names_extend(segs0, self.segments@, subj_offset as int, *m, m.subject_id, SlabId(0));
                }
                let ghost sv = states@;
                let ghost segs1 = self.segments@;
                let seg = self.insert_memoref(k, *m, NetbufSegment::MemoRef(MemoRefBuffer(m.memo_id, Some(states), subj_offset)), true);
                proof {
                    assert(step_ok(s1, *self, mk, true));
                    lemma_step_compose(*old(self), s1, *self, peers_keys(peerset.0@), mk, true);
                    lemma_step_same_keys(*old(self), *self, keys_union(peers_keys(peerset.0@), mk), n_all, true);
                    assert(segments_extend(old(self).segs(), self.segs()));
                    assert(segments_extend(segs1, self.segs()));
                    lemma_peers_encoded_extend(segs1, self.segs(), sv, peerset.0@);
                }
                Some(seg)
            },
        }
    }

    /// The edges of `e` as buffer elements, adding the segments of their memorefs.
    fn add_edge(&mut self, e: &EdgeSet) -> (r: Option<EdgeSetBuffer>)
        requires
            old(self).wf(),
        ensures
            final(self).wf(),
            segments_extend(old(self).segs(), final(self).segs()),
            final(self).segs().len() <= old(self).segs().len() + edges_weight(e@),
            r matches Some(b) ==> edges_encoded(final(self).segs(), b.0@, e@),
            r is None ==> old(self).segs().len() + edges_weight(e@) > MAX_SEGMENTS,
            step_ok(*old(self), *final(self), refs_keys(edge_refs(e@)), r is Some),
    {
        let n = e.0.len();
        let mut r: Vec<(RelationSlotId, Vec<SegmentId>)> = Vec::new();
        let mut i: usize = 0;
        proof {
            lemma_step_none(*self);
            assert(e@.take(0) =~= Seq::<(RelationSlotId, HeadView)>::empty());
            assert(edge_refs(e@.take(0)) =~= Seq::<MemoRef>::empty());
            lemma_step_same_keys(*self, *self, no_keys(), refs_keys(edge_refs(e@.take(0))), true);
        }
        while i < n
            invariant
                n == e.0@.len(),
                n == e@.len(),
                i <= n,
                self.wf(),
                segments_extend(old(self).segs(), self.segs()),
                self.segs().len() <= old(self).segs().len() + edges_weight(e@.take(i as int)),
                edges_encoded(self.segs(), r@, e@.take(i as int)),
                step_ok(*old(self), *self, refs_keys(edge_refs(e@.take(i as int))), true),
            decreases n - i,
        {
            proof {
                lemma_edges_weight_prefix(e@, i + 1);
                lemma_edges_weight_step(e@, i as int);
            }
            let refs = e.0[i].1.to_vec();
            let ghost segs_before = self.segs();
            let ghost mid = *self;
            let ghost ka = refs_keys(edge_refs(e@.take(i as int)));
            proof {
                assert(refs@ == e@[i as int].1.refs());
                lemma_edge_refs_step(e@, i as int);
                lemma_refs_keys_concat(edge_refs(e@.take(i as int)), refs@);
                lemma_edge_refs_prefix(e@, i + 1);
            }
            let offs = match self.add_memorefs(&refs) {
                Some(v) => v,
                None => {
                    proof {
                        lemma_step_compose(*old(self), mid, *self, ka, refs_keys(refs@), false);
                        lemma_step_widen_failed(*old(self), *self, keys_union(ka, refs_keys(refs@)), refs_keys(edge_refs(e@)));
                    }
                    return None;
                },
            };
            proof {
                lemma_step_compose(*old(self), mid, *self, ka, refs_keys(refs@), true);
                lemma_step_same_keys(*old(self), *self, keys_union(ka, refs_keys(refs@)), refs_keys(edge_refs(e@.take(i + 1))), true);
                lemma_edges_encoded_extend(segs_before, self.segs(), r@, e@.take(i as int));
            }
            r.push((e.0[i].0, offs));
            proof {
                assert(e@.take(i + 1) =~= e@.take(i as int).push(e@[i as int]));
            }
            i = i + 1;
        }
        proof {
            assert(e@.take(n as int) =~= e@);
        }
        Some(EdgeSetBuffer(r))
    }

    /// The relations of `rs` as buffer elements, adding the segments of their subjects.
    fn add_relations(&mut self, rs: &RelationSet) -> (r: Option<Vec<(RelationSlotId, Option<SegmentId>)>>)
        requires
            old(self).wf(),
        ensures
            final(self).wf(),
            segments_extend(old(self).segs(), final(self).segs()),
            final(self).segs().len() <= old(self).segs().len() + rs@.len(),
            r matches Some(v) ==> relations_encoded(final(self).segs(), v@, rs@),
            r is None ==> old(self).segs().len() + rs@.len() > MAX_SEGMENTS,
            step_ok(*old(self), *final(self), rels_keys(rs@), r is Some),
    {
        let n = rs.0.len();
        let mut r: Vec<(RelationSlotId, Option<SegmentId>)> = Vec::new();
        let mut i: usize = 0;
        proof {
            lemma_step_none(*self);
            assert(rs@.take(0) =~= Seq::<(RelationSlotId, Option<SubjectId>)>::empty());
            assert(rel_targets(rs@.take(0)).to_set() =~= Set::<SubjectId>::empty());
            lemma_step_same_keys(*self, *self, no_keys(), rels_keys(rs@.take(0)), true);
        }
        while i < n
            invariant
                n == rs@.len(),
                i <= n,
                self.wf(),
                segments_extend(old(self).segs(), self.segs()),
                self.segs().len() <= old(self).segs().len() + i,
                relations_encoded(self.segs(), r@, rs@.take(i as int)),
                step_ok(*old(self), *self, rels_keys(rs@.take(i as int)), true),
            decreases n - i,
        {
            let ghost segs_before = self.segs();
            let ghost mid = *self;
            let ghost ka = rels_keys(rs@.take(i as int));
            let (slot, target) = rs.0[i];
            proof {
                lemma_rel_targets_step(rs@, i as int);
                lemma_rel_targets_prefix(rs@, i + 1);
                assert(rs@[i as int].1 == target);
            }
            let item = match target {
                Some(s) => match self.add_subject(s) {
                    Some(x) => {
                        proof {
                            lemma_push_to_set(rel_targets(rs@.take(i as int)), s);
                            lemma_step_compose(*old(self), mid, *self, ka, (set![s], Set::empty(), Set::empty()), true);
                            lemma_step_same_keys(*old(self), *self, keys_union(ka, (set![s], Set::empty(), Set::empty())), rels_keys(rs@.take(i + 1)), true);
                        }
                        Some(x)
                    },
                    None => {
                        proof {
                            lemma_push_to_set(rel_targets(rs@.take(i as int)), s);
                            lemma_step_compose(*old(self), mid, *self, ka, (set![s], Set::empty(), Set::empty()), false);
                            lemma_step_widen_failed(*old(self), *self, keys_union(ka, (set![s], Set::empty(), Set::empty())), rels_keys(rs@));
                        }
                        return None;
                    },
                },
                None => {
                    proof {
                        assert(rels_keys(rs@.take(i + 1)) == ka);
                    }
                    None
                },
            };
            proof {
                lemma_relations_encoded_extend(segs_before, self.segs(), r@, rs@.take(i as int));
            }
            r.push((slot, item));
            proof {
                assert(rs@.take(i + 1) =~= rs@.take(i as int).push(rs@[i as int]));
            }
            i = i + 1;
        }
        proof {
            assert(rs@.take(n as int) =~= rs@);
        }
        Some(r)
    }

    /// The body `body` as a buffer element, adding the segments it refers to.
    fn encode_body(&mut self, body: &MemoBody) -> (r: Option<MemoBodyBuffer>)
        requires
            old(self).wf(),
        ensures
            final(self).wf(),
            segments_extend(old(self).segs(), final(self).segs()),
            final(self).segs().len() <= old(self).segs().len() + body_weight(body@),
            r matches Some(b) ==> body_encoded(final(self).segs(), body@, b),
            r is None ==> old(self).segs().len() + body_weight(body@) > MAX_SEGMENTS,
            step_ok(*old(self), *final(self), body_keys(body@), r is Some),
    {
        match body {
            MemoBody::SlabPresence { p, seed } => {
                let ghost k1 = (Set::<SubjectId>::empty(), Set::<MemoRef>::empty(), set![p.slab_id]);
                let off = match self.add_slabref(p.slab_id) {
                    Some(x) => x,
                    None => {
                        proof {
                            lemma_step_widen_failed(*old(self), *self, k1, body_keys(body@));
                        }
                        return None;
                    },
                };
                let refs = seed.to_vec();
                let ghost segs1 = self.segs();
                let ghost mid = *self;
                let offs = match self.add_memorefs(&refs) {
                    Some(v) => v,
                    None => {
                        proof {
                            assert(refs@ == seed@.refs());
                            lemma_step_compose(*old(self), mid, *self, k1, refs_keys(refs@), false);
                        }
                        return None;
                    },
                };
                proof {
                    assert(refs@ == seed@.refs());
                    lemma_step_compose(*old(self), mid, *self, k1, refs_keys(refs@), true);
                }
                proof {
                    lemma_names_extend(segs1, self.segs(), off as int, MemoRef { memo_id: 0, subject_id: subject_or_anonymous(None) }, subject_or_anonymous(None), p.slab_id);
                }
                let mut addresses: Vec<TransportAddress> = Vec::new();
                addresses.push(p.address.clone_address());
                Some(MemoBodyBuffer::SlabPresence { p: SlabPresenceBuffer(off, addresses, p.liveness), r: offs })
            },
            MemoBody::Relation(rs) => {
                match self.add_relations(rs) {
                    Some(v) => Some(MemoBodyBuffer::Relation(v)),
                    None => None,
                }
            },
            MemoBody::Edge(e) => {
                match self.add_edge(e) {
                    Some(eb) => Some(MemoBodyBuffer::Edge(eb)),
                    None => None,
                }
            },
            MemoBody::Edit(v) => {
                proof {
                    lemma_step_none(*self);
                }
                Some(MemoBodyBuffer::Edit(clone_pairs(&v.0)))
            },
            MemoBody::FullyMaterialized { v, e, .. } => {
                match self.add_edge(e) {
                    Some(eb) => Some(MemoBodyBuffer::FullyMaterialized { v: clone_pairs(&v.0), e: eb }),
                    None => None,
                }
            },
            MemoBody::PartiallyMaterialized { v, e, .. } => {
                match self.add_edge(e) {
                    Some(eb) => Some(MemoBodyBuffer::PartiallyMaterialized { v: clone_pairs(&v.0), e: eb }),
                    None => None,
                }
            },
            MemoBody::Peering(memo_id, subject, peers) => {
                let subject_id = match subject {
                    Some(s) => *s,
                    None => SubjectId::anonymous(),
                };
                let m = MemoRef { memo_id: *memo_id, subject_id };
                proof {
                    assert(m == MemoRef { memo_id: *memo_id, subject_id: subject_or_anonymous(*subject) });
                }
                let off = match self.add_memoref_of(&m) {
                    Some(x) => x,
                    None => {
                        proof {
                            lemma_step_widen_failed(*old(self), *self, ref_keys(m), body_keys(body@));
                        }
                        return None;
                    },
                };
                let ghost segs1 = self.segs();
                let ghost mid = *self;
                let states = match self.peer_states(peers) {
                    Some(v) => v,
                    None => {
                        proof {
                            lemma_step_compose(*old(self), mid, *self, ref_keys(m), peers_keys(peers.0@), false);
                        }
                        return None;
                    },
                };
                proof {
                    lemma_step_compose(*old(self), mid, *self, ref_keys(m), peers_keys(peers.0@), true);
                }
                proof {
                    lemma_names_extend(segs1, self.segs(), off as int, m, subject_id, SlabId(0));
                }
                Some(MemoBodyBuffer::Peering(off, states))
            },
            MemoBody::MemoRequest(ids, slab_id) => {
                let refs = anonymous_memorefs(ids);
                let ghost k2 = (Set::<SubjectId>::empty(), Set::<MemoRef>::empty(), set![*slab_id]);
                let offs = match self.add_memorefs(&refs) {
                    Some(v) => v,
                    None => {
                        proof {
                            lemma_step_widen_failed(*old(self), *self, refs_keys(refs@), body_keys(body@));
                        }
                        return None;
                    },
                };
                let ghost segs1 = self.segs();
                let ghost mid = *self;
                let off = match self.add_slabref(*slab_id) {
                    Some(x) => x,
                    None => {
                        proof {
                            lemma_step_compose(*old(self), mid, *self, refs_keys(refs@), k2, false);
                        }
                        return None;
                    },
                };
                proof {
                    lemma_step_compose(*old(self), mid, *self, refs_keys(refs@), k2, true);
                }
                proof {
                    lemma_refs_encoded_extend(segs1, self.segs(), offs@, refs@);
                }
                let mut slabs: Vec<SegmentId> = Vec::new();
                slabs.push(off);
                Some(MemoBodyBuffer::MemoRequest(offs, slabs))
            },
        }
    }

    /// Writes memo `memo`, reached through `memoref`, into the buffer: the
    /// memoref (with its peers `peerset` and its subject), what the body
    /// refers to, the parents, and last the memo segment that points to them.
    /// Segments that the buffer holds already are reused, so the memo adds
    /// exactly `segments_needed` segments. Refused with `BufferError::Full`,
    /// and the buffer left as it was, exactly when those do not fit.
    pub fn add_memoref_peerset_and_memo(&mut self, memoref: &MemoRef, peerset: &MemoPeerList, memo: &Memo) -> (r: Result<(), BufferError>)
        requires
            old(self).wf(),
        ensures
            final(self).wf(),
            r is Ok <==> old(self).segs().len() + segments_needed(*old(self), *memoref, peerset.0@, memo@) <= MAX_SEGMENTS,
            r is Ok ==> final(self).segs().len() == old(self).segs().len() + segments_needed(
                *old(self),
                *memoref,
                peerset.0@,
                memo@,
            ),
            old(self).segs().len() + memo_weight(peerset.0@.len(), memo@) <= MAX_SEGMENTS ==> r is Ok,
            r is Err ==> {
                &&& r == Err::<(), BufferError>(BufferError::Full)
                &&& old(self).segs().len() + memo_weight(peerset.0@.len(), memo@) > MAX_SEGMENTS
                &&& final(self).segs() == old(self).segs()
                &&& final(self).subject_entries() == old(self).subject_entries()
                &&& final(self).memoref_entries() == old(self).memoref_entries()
                &&& final(self).slabref_entries() == old(self).slabref_entries()
            },
            r is Ok ==> {
                &&& segments_extend(old(self).segs(), final(self).segs())
                &&& final(self).segs().len() <= old(self).segs().len() + memo_weight(peerset.0@.len(), memo@)
                &&& last_memo_encoded(
                    final(self).segs(),
                    *memoref,
                    memo@,
                    if old(self).has_memoref(*memoref) {
                        None
                    } else {
                        Some(peerset.0@)
                    },
                )
            },
    {
        let ghost segs0 = self.segs();
        let ghost had = self.has_memoref(*memoref);
        let old_len = self.segments.len();
        let saved_subjects = copy_vec(&self.subject_offsets);
        let saved_memorefs = copy_vec(&self.memoref_offsets);
        let saved_slabrefs = copy_vec(&self.slabref_offsets);
        let ghost b0 = *self;
        let written = self.write_memo(memoref, peerset, memo);
        let ghost b3 = *self;
        proof {
            let n = memo_keys_needed(*memoref, peerset.0@, memo@, had);
            b0.lemma_keys_count();
            b3.lemma_keys_count();
            lemma_needed_finite(*memoref, peerset.0@, memo@, had);
            lemma_step_count(b0.keys().0, b3.keys().0, n.0, written is Some);
            lemma_step_count(b0.keys().1, b3.keys().1, n.1, written is Some);
            lemma_step_count(b0.keys().2, b3.keys().2, n.2, written is Some);
            assert(segments_needed(b0, *memoref, peerset.0@, memo@) == keys_missing(b0.keys(), n) + 1);
        }
        match written {
            Some(mb) => {
                let ghost segs3 = self.segs();
                let ghost mbv = mb;
                self.segments.push(NetbufSegment::Memo(mb));
                proof {
                    let segs4 = self.segs();
                    assert(segments_extend(segs3, segs4));
                    lemma_tables_extend(segs3, segs4, self.subject_offsets@, self.memoref_offsets@, self.slabref_offsets@);
                    lemma_memo_encoded_extend(segs3, segs4, mbv, *memoref, memo@, if had { None } else { Some(peerset.0@) });
                    assert(segs4.last() == NetbufSegment::Memo(mbv));
                }
                Ok(())
            },
            None => {
                self.segments.truncate(old_len);
                self.subject_offsets = saved_subjects;
                self.memoref_offsets = saved_memorefs;
                self.slabref_offsets = saved_slabrefs;
                proof {
                    assert(self.segments@ =~= segs0);
                }
                Err(BufferError::Full)
            },
        }
    }

    /// Writes everything that memo `memo` refers to (see
    /// `add_memoref_peerset_and_memo`) and gives the memo segment to push;
    /// `None` when a segment does not fit.
    fn write_memo(&mut self, memoref: &MemoRef, peerset: &MemoPeerList, memo: &Memo) -> (r: Option<MemoBuffer>)
        requires
            old(self).wf(),
        ensures
            final(self).wf(),
            segments_extend(old(self).segs(), final(self).segs()),
            final(self).segs().len() + 1 <= old(self).segs().len() + memo_weight(peerset.0@.len(), memo@),
            r is None ==> old(self).segs().len() + memo_weight(peerset.0@.len(), memo@) > MAX_SEGMENTS,
            r matches Some(mb) ==> final(self).segs().len() < MAX_SEGMENTS && memo_written(
                final(self).segs(),
                mb,
                *memoref,
                memo@,
                if old(self).has_memoref(*memoref) {
                    None
                } else {
                    Some(peerset.0@)
                },
            ),
            step_ok(
                *old(self),
                *final(self),
                memo_keys_needed(*memoref, peerset.0@, memo@, old(self).has_memoref(*memoref)),
                r is Some,
            ),
    {
        let ghost segs0 = self.segs();
        let ghost had = self.has_memoref(*memoref);
        let ghost nall = memo_keys_needed(*memoref, peerset.0@, memo@, had);
        let ghost k1 = (set![memoref.subject_id], Set::<MemoRef>::empty(), Set::<SlabId>::empty());
        let ghost k2 = keys_union(
            (Set::<SubjectId>::empty(), set![*memoref], Set::<SlabId>::empty()),
            if had {
                no_keys()
            } else {
                peers_keys(peerset.0@)
            },
        );
        let ghost k3 = body_keys(memo@.body);
        let ghost k4 = refs_keys(memo@.parents.refs());
        proof {
            assert(keys_within(k1, nall));
            assert(keys_within(keys_union(k1, k2), nall));
            assert(keys_within(keys_union(keys_union(k1, k2), k3), nall));
        }
        let subj = match self.add_subject(memoref.subject_id) {
            Some(x) => x,
            None => {
                proof {
                    lemma_step_widen_failed(*old(self), *self, k1, nall);
                }
                return None;
            },
        };
        let ghost b1 = *self;
        proof {
            assert(self.has_memoref(*memoref) == had);
        }
        let mr = match self.add_memoref_and_peerset(memoref, subj, peerset) {
            Some(x) => x,
            None => {
                proof {
                    lemma_step_compose(*old(self), b1, *self, k1, k2, false);
                    lemma_step_widen_failed(*old(self), *self, keys_union(k1, k2), nall);
                }
                return None;
            },
        };
        proof {
            lemma_step_compose(*old(self), b1, *self, k1, k2, true);
        }
        let ghost b2 = *self;
        let ghost segs1 = self.segs();
        let body = match self.encode_body(&memo.body) {
            Some(b) => b,
            None => {
                proof {
                    lemma_step_compose(*old(self), b2, *self, keys_union(k1, k2), k3, false);
                    lemma_step_widen_failed(*old(self), *self, keys_union(keys_union(k1, k2), k3), nall);
                }
                return None;
            },
        };
        proof {
            lemma_step_compose(*old(self), b2, *self, keys_union(k1, k2), k3, true);
        }
        let ghost b3 = *self;
        let ghost segs2 = self.segs();
        let parent_refs = memo.parents.to_vec();
        let parents = match self.add_memorefs(&parent_refs) {
            Some(v) => v,
            None => {
                proof {
                    assert(parent_refs@ == memo@.parents.refs());
                    lemma_step_compose(*old(self), b3, *self, keys_union(keys_union(k1, k2), k3), k4, false);
                    lemma_step_widen_failed(*old(self), *self, keys_union(keys_union(keys_union(k1, k2), k3), k4), nall);
                }
                return None;
            },
        };
        proof {
            assert(parent_refs@ == memo@.parents.refs());
            lemma_step_compose(*old(self), b3, *self, keys_union(keys_union(k1, k2), k3), k4, true);
            lemma_step_same_keys(*old(self), *self, keys_union(keys_union(keys_union(k1, k2), k3), k4), nall, true);
        }
        let ghost segs3 = self.segs();
        if self.segments.len() >= MAX_SEGMENTS {
            proof {
                lemma_step_full(*old(self), *self, nall, nall);
            }
            return None;
        }
        let ghost mb = MemoBuffer(mr, parents, body);
        proof {
            assert(segments_extend(segs1, segs3));
            assert(segments_extend(segs2, segs3));
            lemma_names_extend(segs1, segs3, mr as int, *memoref, memoref.subject_id, SlabId(0));
            lemma_body_encoded_extend(segs2, segs3, memo.body@, mb.2);
            if !had {
                let b = segs1[mr as int]->MemoRef_0;
                assert(segs3[mr as int] == segs1[mr as int]);
                lemma_peers_encoded_extend(segs1, segs3, b.1->0@, peerset.0@);
            }
            assert(segments_extend(segs0, segs3));
        }
        Some(MemoBuffer(mr, parents, body))
    }

    /// Writes the peers of every memoref in the table whose peers are not
    /// written yet, as `f` gives them, in table order, adding the segments of
    /// their slabs; the memoref table is emptied. Refused with
    /// `BufferError::Full` when a slab of a peer list has no segment and the
    /// buffer has no room left for one; the memorefs before it are written.
    pub fn populate_memopeersets<F: Fn(&MemoRef) -> MemoPeerList>(&mut self, f: F) -> (r: Result<(), BufferError>)
        requires
            old(self).wf(),
            forall|m: MemoRef| f.requires((&m,)),
        ensures
            final(self).wf(),
            segments_refine(old(self).segs(), final(self).segs()),
            final(self).memoref_entries().len() == 0,
            r is Ok ==> forall|k: int|
                0 <= k < old(self).memoref_entries().len() && !(#[trigger] old(self).memoref_entries()[k]).2 ==> exists|pl: MemoPeerList|
                    f.ensures((&old(self).memoref_entries()[k].1,), pl) && memoref_peers_written(
                        final(self).segs(),
                        old(self).memoref_entries()[k].0 as int,
                        pl.0@,
                    ),
            r is Err ==> {
                &&& r == Err::<(), BufferError>(BufferError::Full)
                &&& final(self).segs().len() == MAX_SEGMENTS
                &&& exists|k: int| {
                    &&& 0 <= k < old(self).memoref_entries().len()
                    &&& !(#[trigger] old(self).memoref_entries()[k]).2
                    &&& exists|pl: MemoPeerList|
                        f.ensures((&old(self).memoref_entries()[k].1,), pl) && !peers_listed(final(self).slabref_entries(), pl.0@)
                    &&& forall|k2: int|
                        0 <= k2 < k && !(#[trigger] old(self).memoref_entries()[k2]).2 ==> exists|pl: MemoPeerList|
                            f.ensures((&old(self).memoref_entries()[k2].1,), pl) && memoref_peers_written(
                                final(self).segs(),
                                old(self).memoref_entries()[k2].0 as int,
                                pl.0@,
                            )
                }
            },
    {
        let ghost segs0 = self.segments@;
        let mut entries: Vec<(SegmentId, MemoRef, bool)> = Vec::new();
        core::mem::swap(&mut entries, &mut self.memoref_offsets);
        proof {
            assert(tables_ok(self.segments@, self.subject_offsets@, self.memoref_offsets@, self.slabref_offsets@));
            lemma_table_segments_distinct(segs0, entries@);
        }
        let n = entries.len();
        let mut i: usize = 0;
        while i < n
            invariant
                n == entries@.len(),
                i <= n,
                entries@ == old(self).memoref_offsets@,
                segs0 == old(self).segs(),
                self.wf(),
                self.memoref_offsets@.len() == 0,
                forall|m: MemoRef| f.requires((&m,)),
                segments_refine(segs0, self.segs()),
                memoref_table_ok(segs0, entries@),
                forall|a: int, b: int| 0 <= a < b < n ==> (#[trigger] entries@[a]).0 != (#[trigger] entries@[b]).0,
                forall|k: int|
                    0 <= k < i && !(#[trigger] entries@[k]).2 ==> exists|pl: MemoPeerList|
                        f.ensures((&entries@[k].1,), pl) && memoref_peers_written(self.segs(), entries@[k].0 as int, pl.0@),
            decreases n - i,
        {
            let (seg, m, done) = entries[i];
            if !done {
                let pl = f(&m);
                let ghost segs1 = self.segments@;
                let states = match self.peer_states(&pl) {
                    Some(v) => v,
                    None => {
                        proof {
                            let segs2 = self.segments@;
                            assert(segments_extend(segs1, segs2));
                            assert forall|k: int|
                                0 <= k < i && !(#[trigger] entries@[k]).2 implies exists|q: MemoPeerList|
                                    f.ensures((&entries@[k].1,), q) && memoref_peers_written(segs2, entries@[k].0 as int, q.0@) by {
                                let q = choose|q: MemoPeerList|
                                    f.ensures((&entries@[k].1,), q) && memoref_peers_written(segs1, entries@[k].0 as int, q.0@);
                                let off = entries@[k].0 as int;
                                assert(segs2[off] == segs1[off]);
                                let ps = segs1[off]->MemoRef_0.1->0@;
                                lemma_peers_encoded_extend(segs1, segs2, ps, q.0@);
                            }
                            assert(entries@[i as int].1 == m);
                            assert(f.ensures((&entries@[i as int].1,), pl));
                            assert(!(entries@[i as int]).2);
                            assert(old(self).memoref_entries() == entries@);
                            assert(!peers_listed(self.slabref_entries(), pl.0@));
                            assert(!(old(self).memoref_entries()[i as int]).2);
                        }
                        return Err(BufferError::Full);
                    },
                };
                let ghost segs2 = self.segments@;
                proof {
                    lemma_refine_extend(segs0, segs1, segs2);
                    lemma_names_refine(segs0, segs2, seg as int, m, m.subject_id, SlabId(0));
                }
                let (memo_id, subj) = match &self.segments[seg as usize] {
                    NetbufSegment::MemoRef(b) => (b.0, b.2),
                    _ => {
                        proof {
                            assert(false);
                        }
                        (0, 0)
                    },
                };
                let ghost item = NetbufSegment::MemoRef(MemoRefBuffer(memo_id, Some(states), subj));
                let ghost sv = states@;
                self.segments[seg as usize] = NetbufSegment::MemoRef(MemoRefBuffer(memo_id, Some(states), subj));
                proof {
                    let segs3 = self.segments@;
                    assert(segs3 == segs2.update(seg as int, item));
                    lemma_refine_peers_update(segs2, seg as int, item);
                    lemma_refine_trans(segs0, segs2, segs3);
                    lemma_tables_refine(segs2, segs3, self.subject_offsets@, self.memoref_offsets@, self.slabref_offsets@);
                    lemma_peers_encoded_refine(segs2, segs3, sv, pl.0@);
                    assert(memoref_peers_written(segs3, seg as int, pl.0@));
                    assert forall|k: int|
                        0 <= k < i + 1 && !(#[trigger] entries@[k]).2 implies exists|q: MemoPeerList|
                            f.ensures((&entries@[k].1,), q) && memoref_peers_written(segs3, entries@[k].0 as int, q.0@) by {
                        if k < i {
                            let q = choose|q: MemoPeerList|
                                f.ensures((&entries@[k].1,), q) && memoref_peers_written(segs1, entries@[k].0 as int, q.0@);
                            let off = entries@[k].0 as int;
                            assert(off != seg as int);
                            assert(segs2[off] == segs1[off]);
                            let ps = segs1[off]->MemoRef_0.1->0@;
                            lemma_peers_encoded_extend(segs1, segs2, ps, q.0@);
                            lemma_peers_encoded_refine(segs2, segs3, ps, q.0@);
                            assert(segs3[off] == segs2[off]);
                            assert(memoref_peers_written(segs3, off, q.0@));
                        } else {
                            assert(entries@[k].1 == m);
                            assert(f.ensures((&m,), pl));
                        }
                    }
                }
            } else {
                proof {
                    assert forall|k: int| 0 <= k < i + 1 && !(#[trigger] entries@[k]).2 implies exists|q: MemoPeerList|
                        f.ensures((&entries@[k].1,), q) && memoref_peers_written(self.segs(), entries@[k].0 as int, q.0@) by {
                        assert(k < i);
                    }
                }
            }
            i = i + 1;
        }
        Ok(())
    }

    /// Whether the peers of every memoref and the presence of every slab in
    /// the tables have been written.
    pub fn is_fully_populated(&self) -> (r: bool)
        ensures
            r == ((forall|i: int| 0 <= i < self.memoref_entries().len() ==> (#[trigger] self.memoref_entries()[i]).2)
                && (forall|i: int| 0 <= i < self.slabref_entries().len() ==> (#[trigger] self.slabref_entries()[i]).2)),
    {
        let mut i: usize = 0;
        while i < self.memoref_offsets.len()
            invariant
                i <= self.memoref_offsets@.len(),
                forall|j: int| 0 <= j < i ==> (#[trigger] self.memoref_offsets@[j]).2,
            decreases self.memoref_offsets@.len() - i,
        {
            if !self.memoref_offsets[i].2 {
                proof {
                    assert(!self.memoref_entries()[i as int].2);
                }
                return false;
            }
            i = i + 1;
        }
        let mut k: usize = 0;
        while k < self.slabref_offsets.len()
            invariant
                k <= self.slabref_offsets@.len(),
                forall|j: int| 0 <= j < self.memoref_offsets@.len() ==> (#[trigger] self.memoref_offsets@[j]).2,
                forall|j: int| 0 <= j < k ==> (#[trigger] self.slabref_offsets@[j]).2,
            decreases self.slabref_offsets@.len() - k,
        {
            if !self.slabref_offsets[k].2 {
                proof {
                    assert(!self.slabref_entries()[k as int].2);
                }
                return false;
            }
            k = k + 1;
        }
        true
    }

    /// The segments, in order, as a serializer reads them.
    pub fn segments(&self) -> (r: &Vec<NetbufSegment>)
        ensures
            r@ == self.segs(),
    {
        &self.segments
    }

    /// A buffer of the given segments, with empty tables, as a deserializer
    /// builds it; `BufferError::DecodeFailed` when there are more segments than
    /// positions.
    pub fn from_segments(segments: Vec<NetbufSegment>) -> (r: Result<NetworkBuffer, BufferError>)
        ensures
            r is Ok <==> segments@.len() <= MAX_SEGMENTS,
            r matches Ok(b) ==> b.wf() && b.segs() == segments@ && b.memoref_entries().len() == 0
                && b.slabref_entries().len() == 0,
            r is Err ==> r == Err::<NetworkBuffer, BufferError>(BufferError::DecodeFailed),
    {
        if segments.len() > MAX_SEGMENTS {
            return Err(BufferError::DecodeFailed);
        }
        Ok(NetworkBuffer {
            segments,
            subject_offsets: Vec::new(),
            memoref_offsets: Vec::new(),
            slabref_offsets: Vec::new(),
        })
    }

    /// The number of segments.
    pub fn segment_count(&self) -> (r: usize)
        ensures
            r == self.segs().len(),
    {
        self.segments.len()
    }
}

/// Slab `id` has an entry in slab table `tab`.
pub open spec fn slab_listed(tab: Seq<(SegmentId, SlabId, bool)>, id: SlabId) -> bool {
    exists|i: int| 0 <= i < tab.len() && (#[trigger] tab[i]).1 == id
}

/// Every slab of `peers` has an entry in slab table `tab`.
pub open spec fn peers_listed(tab: Seq<(SegmentId, SlabId, bool)>, peers: Seq<MemoPeer>) -> bool {
    forall|j: int| 0 <= j < peers.len() ==> slab_listed(tab, (#[trigger] peers[j]).slab_id)
}

/// `offs` are the segments of memorefs `refs`, in order.
pub open spec fn refs_encoded(segs: Seq<NetbufSegment>, offs: Seq<SegmentId>, refs: Seq<MemoRef>) -> bool {
    &&& offs.len() == refs.len()
    &&& forall|k: int| 0 <= k < offs.len() ==> names_memo(segs, #[trigger] offs[k] as int, refs[k])
}

/// Memoref segment `off` holds peers, and they are `peers`.
pub open spec fn memoref_peers_written(segs: Seq<NetbufSegment>, off: int, peers: Seq<MemoPeer>) -> bool {
    &&& 0 <= off < segs.len()
    &&& segs[off] matches NetbufSegment::MemoRef(b) && b.1 matches Some(ps) && peers_encoded(segs, ps@, peers)
}

/// `ps` are the peers `peers`, each by the segment of its slab.
pub open spec fn peers_encoded(segs: Seq<NetbufSegment>, ps: Seq<MemoPeerStateBuffer>, peers: Seq<MemoPeer>) -> bool {
    &&& ps.len() == peers.len()
    &&& forall|k: int|
        0 <= k < ps.len() ==> names_slab(segs, (#[trigger] ps[k]).0 as int, peers[k].slab_id) && ps[k].1 == peers[k].status
}

/// The segments that writing the memorefs of edges `e` may add: two for each memoref.
pub open spec fn edges_weight(e: Seq<(RelationSlotId, HeadView)>) -> nat
    decreases e.len(),
{
    if e.len() == 0 {
        0
    } else {
        edges_weight(e.drop_last()) + 2 * e.last().1.refs().len()
    }
}

/// The weight of the first `i + 1` edges is that of the first `i` and that of edge `i`.
pub proof fn lemma_edges_weight_step(e: Seq<(RelationSlotId, HeadView)>, i: int)
    requires
        0 <= i < e.len(),
    ensures
        edges_weight(e.take(i + 1)) == edges_weight(e.take(i)) + 2 * e[i].1.refs().len(),
{
    assert(e.take(i + 1).drop_last() =~= e.take(i));
}

/// The weight of a prefix of edges is at most that of all of them.
pub proof fn lemma_edges_weight_prefix(e: Seq<(RelationSlotId, HeadView)>, i: int)
    requires
        0 <= i <= e.len(),
    ensures
        edges_weight(e.take(i)) <= edges_weight(e),
    decreases e.len() - i,
{
    if i < e.len() {
        lemma_edges_weight_prefix(e, i + 1);
        lemma_edges_weight_step(e, i);
    } else {
        assert(e.take(i) =~= e);
    }
}

/// The segments that writing body `b` may add.
pub open spec fn body_weight(b: BodyView) -> nat {
    match b {
        BodyView::SlabPresence(_, seed) => 1 + 2 * seed.refs().len(),
        BodyView::Relation(r) => r.len(),
        BodyView::Edge(e) => edges_weight(e),
        BodyView::Edit(_) => 0,
        BodyView::FullyMaterialized(_, _, e, _) => edges_weight(e),
        BodyView::PartiallyMaterialized(_, _, e, _) => edges_weight(e),
        BodyView::Peering(_, _, peers) => 2 + peers.len(),
        BodyView::MemoRequest(ids, _) => 2 * ids.len() + 1,
    }
}

/// The segments that writing memo `m` with `peer_count` peers may add: the
/// subject and memoref of the memo with its peers, the body, the parents and
/// the memo itself.
pub open spec fn memo_weight(peer_count: nat, m: MemoView) -> nat {
    2 + peer_count + body_weight(m.body) + 2 * m.parents.refs().len() + 1
}

/// The memorefs of memo ids `ids` under the anonymous subject.
pub open spec fn anonymous_refs(ids: Seq<MemoId>) -> Seq<MemoRef> {
    ids.map_values(|id: MemoId| MemoRef { memo_id: id, subject_id: SubjectId { id: 0, stype: SubjectType::Anonymous } })
}

/// The subject of a peering memo: the given one, or the anonymous subject.
pub open spec fn subject_or_anonymous(s: Option<SubjectId>) -> SubjectId {
    match s {
        Some(x) => x,
        None => SubjectId { id: 0, stype: SubjectType::Anonymous },
    }
}

/// `eb` are the edges `e`, each memoref by its segment.
pub open spec fn edges_encoded(
    segs: Seq<NetbufSegment>,
    eb: Seq<(RelationSlotId, Vec<SegmentId>)>,
    e: Seq<(RelationSlotId, HeadView)>,
) -> bool {
    &&& eb.len() == e.len()
    &&& forall|k: int| 0 <= k < eb.len() ==> (#[trigger] eb[k]).0 == e[k].0 && refs_encoded(segs, eb[k].1@, e[k].1.refs())
}

/// `rb` is relation `r`, its subject by its segment.
pub open spec fn relation_encoded(
    segs: Seq<NetbufSegment>,
    rb: (RelationSlotId, Option<SegmentId>),
    r: (RelationSlotId, Option<SubjectId>),
) -> bool {
    &&& rb.0 == r.0
    &&& match r.1 {
        None => rb.1 is None,
        Some(s) => rb.1 matches Some(off) && names_subject(segs, off as int, s),
    }
}

/// `rb` are the relations `r`, each subject by its segment.
pub open spec fn relations_encoded(
    segs: Seq<NetbufSegment>,
    rb: Seq<(RelationSlotId, Option<SegmentId>)>,
    r: Seq<(RelationSlotId, Option<SubjectId>)>,
) -> bool {
    &&& rb.len() == r.len()
    &&& forall|k: int| 0 <= k < rb.len() ==> relation_encoded(segs, #[trigger] rb[k], r[k])
}

/// `pb` is presence `p`, its slab by its segment.
pub open spec fn presence_encoded(segs: Seq<NetbufSegment>, pb: SlabPresenceBuffer, p: PresenceView) -> bool {
    &&& names_slab(segs, pb.0 as int, p.slab_id)
    &&& pb.1@.len() == 1
    &&& pb.1@[0]@ == p.address
    &&& pb.2 == p.liveness
}

/// `bb` is body `b` as the buffer writes it: memorefs, subjects and slabs by
/// their segments; the values of a materialized body kept, its relations and
/// type left out.
pub open spec fn body_encoded(segs: Seq<NetbufSegment>, b: BodyView, bb: MemoBodyBuffer) -> bool {
    match b {
        BodyView::SlabPresence(p, seed) => bb matches MemoBodyBuffer::SlabPresence { p: pb, r } && presence_encoded(
            segs,
            pb,
            p,
        ) && refs_encoded(segs, r@, seed.refs()),
        BodyView::Relation(r) => bb matches MemoBodyBuffer::Relation(rb) && relations_encoded(segs, rb@, r),
        BodyView::Edge(e) => bb matches MemoBodyBuffer::Edge(eb) && edges_encoded(segs, eb.0@, e),
        BodyView::Edit(v) => bb matches MemoBodyBuffer::Edit(vb) && pairs_view(vb@) == v,
        BodyView::FullyMaterialized(v, _, e, _) => bb matches MemoBodyBuffer::FullyMaterialized { v: vb, e: eb }
            && pairs_view(vb@) == v && edges_encoded(segs, eb.0@, e),
        BodyView::PartiallyMaterialized(v, _, e, _) => bb matches MemoBodyBuffer::PartiallyMaterialized {
            v: vb,
            e: eb,
        } && pairs_view(vb@) == v && edges_encoded(segs, eb.0@, e),
        BodyView::Peering(id, s, peers) => bb matches MemoBodyBuffer::Peering(off, ps) && names_memo(
            segs,
            off as int,
            MemoRef { memo_id: id, subject_id: subject_or_anonymous(s) },
        ) && peers_encoded(segs, ps@, peers),
        BodyView::MemoRequest(ids, slab) => bb matches MemoBodyBuffer::MemoRequest(offs, slabs) && refs_encoded(
            segs,
            offs@,
            anonymous_refs(ids),
        ) && slabs@.len() == 1 && names_slab(segs, slabs@[0] as int, slab),
    }
}

/// What `edges_encoded` says of a segment list, it says of a longer one with the same prefix.
pub proof fn lemma_edges_encoded_extend(
    segs1: Seq<NetbufSegment>,
    segs2: Seq<NetbufSegment>,
    eb: Seq<(RelationSlotId, Vec<SegmentId>)>,
    e: Seq<(RelationSlotId, HeadView)>,
)
    requires
        segments_extend(segs1, segs2),
        edges_encoded(segs1, eb, e),
    ensures
        edges_encoded(segs2, eb, e),
{
    assert forall|k: int| 0 <= k < eb.len() implies (#[trigger] eb[k]).0 == e[k].0 && refs_encoded(segs2, eb[k].1@, e[k].1.refs()) by {
        lemma_refs_encoded_extend(segs1, segs2, eb[k].1@, e[k].1.refs());
    }
}

/// What `relations_encoded` says of a segment list, it says of a longer one with the same prefix.
pub proof fn lemma_relations_encoded_extend(
    segs1: Seq<NetbufSegment>,
    segs2: Seq<NetbufSegment>,
    rb: Seq<(RelationSlotId, Option<SegmentId>)>,
    r: Seq<(RelationSlotId, Option<SubjectId>)>,
)
    requires
        segments_extend(segs1, segs2),
        relations_encoded(segs1, rb, r),
    ensures
        relations_encoded(segs2, rb, r),
{
    assert forall|k: int| 0 <= k < rb.len() implies relation_encoded(segs2, #[trigger] rb[k], r[k]) by {
        if let Some(s) = r[k].1 {
            lemma_names_extend(segs1, segs2, rb[k].1->0 as int, MemoRef { memo_id: 0, subject_id: s }, s, SlabId(0));
        }
    }
}

/// What `body_encoded` says of a segment list, it says of a longer one with the same prefix.
pub proof fn lemma_body_encoded_extend(segs1: Seq<NetbufSegment>, segs2: Seq<NetbufSegment>, b: BodyView, bb: MemoBodyBuffer)
    requires
        segments_extend(segs1, segs2),
        body_encoded(segs1, b, bb),
    ensures
        body_encoded(segs2, b, bb),
{
    let anon = SubjectId { id: 0, stype: SubjectType::Anonymous };
    match b {
        BodyView::SlabPresence(p, seed) => {
            let pb = bb->SlabPresence_p;
            lemma_names_extend(segs1, segs2, pb.0 as int, MemoRef { memo_id: 0, subject_id: anon }, anon, p.slab_id);
            lemma_refs_encoded_extend(segs1, segs2, bb->SlabPresence_r@, seed.refs());
        },
        BodyView::Relation(r) => {
            lemma_relations_encoded_extend(segs1, segs2, bb->Relation_0@, r);
        },
        BodyView::Edge(e) => {
            lemma_edges_encoded_extend(segs1, segs2, bb->Edge_0.0@, e);
        },
        BodyView::Edit(_) => {},
        BodyView::FullyMaterialized(_, _, e, _) => {
            lemma_edges_encoded_extend(segs1, segs2, bb->FullyMaterialized_e.0@, e);
        },
        BodyView::PartiallyMaterialized(_, _, e, _) => {
            lemma_edges_encoded_extend(segs1, segs2, bb->PartiallyMaterialized_e.0@, e);
        },
        BodyView::Peering(id, s, peers) => {
            let m = MemoRef { memo_id: id, subject_id: subject_or_anonymous(s) };
            lemma_names_extend(segs1, segs2, bb->Peering_0 as int, m, m.subject_id, SlabId(0));
            lemma_peers_encoded_extend(segs1, segs2, bb->Peering_1@, peers);
        },
        BodyView::MemoRequest(ids, slab) => {
            lemma_refs_encoded_extend(segs1, segs2, bb->MemoRequest_0@, anonymous_refs(ids));
            lemma_names_extend(segs1, segs2, bb->MemoRequest_1@[0] as int, MemoRef { memo_id: 0, subject_id: anon }, anon, slab);
        },
    }
}

/// Segment `a` is segment `b`, but that a memoref segment may hold other peers.
pub open spec fn same_but_peers(a: NetbufSegment, b: NetbufSegment) -> bool {
    match (a, b) {
        (NetbufSegment::MemoRef(x), NetbufSegment::MemoRef(y)) => x.0 == y.0 && x.2 == y.2,
        _ => a == b,
    }
}

/// `segs2` holds the segments of `segs1` at the same places, but that memoref
/// segments may hold other peers, and maybe more segments after them.
pub open spec fn segments_refine(segs1: Seq<NetbufSegment>, segs2: Seq<NetbufSegment>) -> bool {
    &&& segs1.len() <= segs2.len()
    &&& forall|i: int| 0 <= i < segs1.len() ==> same_but_peers(#[trigger] segs2[i], segs1[i])
}

/// A refinement followed by an extension is a refinement.
pub proof fn lemma_refine_extend(segs0: Seq<NetbufSegment>, segs1: Seq<NetbufSegment>, segs2: Seq<NetbufSegment>)
    requires
        segments_refine(segs0, segs1),
        segments_extend(segs1, segs2),
    ensures
        segments_refine(segs0, segs2),
{
    assert forall|i: int| 0 <= i < segs0.len() implies same_but_peers(#[trigger] segs2[i], segs0[i]) by {
        assert(segs2[i] == segs1[i]);
    }
}

/// Two refinements make a refinement.
pub proof fn lemma_refine_trans(segs0: Seq<NetbufSegment>, segs1: Seq<NetbufSegment>, segs2: Seq<NetbufSegment>)
    requires
        segments_refine(segs0, segs1),
        segments_refine(segs1, segs2),
    ensures
        segments_refine(segs0, segs2),
{
    assert forall|i: int| 0 <= i < segs0.len() implies same_but_peers(#[trigger] segs2[i], segs0[i]) by {
        assert(same_but_peers(segs2[i], segs1[i]));
        assert(same_but_peers(segs1[i], segs0[i]));
    }
}

/// Writing other peers into a memoref segment refines the segment list.
pub proof fn lemma_refine_peers_update(segs: Seq<NetbufSegment>, off: int, item: NetbufSegment)
    requires
        0 <= off < segs.len(),
        same_but_peers(item, segs[off]),
        item is MemoRef,
    ensures
        segments_refine(segs, segs.update(off, item)),
{
    assert forall|i: int| 0 <= i < segs.len() implies same_but_peers(#[trigger] segs.update(off, item)[i], segs[i]) by {
        if i != off {
            assert(segs.update(off, item)[i] == segs[i]);
        }
    }
}

/// What a segment list names, a refinement of it names too.
pub proof fn lemma_names_refine(segs1: Seq<NetbufSegment>, segs2: Seq<NetbufSegment>, off: int, m: MemoRef, s: SubjectId, id: SlabId)
    requires
        segments_refine(segs1, segs2),
    ensures
        names_subject(segs1, off, s) ==> names_subject(segs2, off, s),
        names_memo(segs1, off, m) ==> names_memo(segs2, off, m),
        names_slab(segs1, off, id) ==> names_slab(segs2, off, id),
{
    if 0 <= off < segs1.len() {
        assert(same_but_peers(segs2[off], segs1[off]));
        if names_memo(segs1, off, m) {
            let b = segs1[off]->MemoRef_0;
            assert(same_but_peers(segs2[b.2 as int], segs1[b.2 as int]));
        }
    }
}

/// What the tables name in a segment list, they name in a refinement of it.
pub proof fn lemma_tables_refine(
    segs1: Seq<NetbufSegment>,
    segs2: Seq<NetbufSegment>,
    subj: Seq<(SegmentId, SubjectId)>,
    memo: Seq<(SegmentId, MemoRef, bool)>,
    slab: Seq<(SegmentId, SlabId, bool)>,
)
    requires
        segments_refine(segs1, segs2),
        tables_ok(segs1, subj, memo, slab),
    ensures
        tables_ok(segs2, subj, memo, slab),
{
    assert forall|i: int| 0 <= i < subj.len() implies names_subject(segs2, (#[trigger] subj[i]).0 as int, subj[i].1) by {
        lemma_names_refine(segs1, segs2, subj[i].0 as int, memo_of_subject(subj[i].1), subj[i].1, SlabId(0));
    }
    assert forall|i: int| 0 <= i < memo.len() implies names_memo(segs2, (#[trigger] memo[i]).0 as int, memo[i].1) by {
        lemma_names_refine(segs1, segs2, memo[i].0 as int, memo[i].1, memo[i].1.subject_id, SlabId(0));
    }
    assert forall|i: int| 0 <= i < slab.len() implies names_slab(segs2, (#[trigger] slab[i]).0 as int, slab[i].1) by {
        lemma_names_refine(segs1, segs2, slab[i].0 as int, memo_of_subject(subject_or_anonymous(None)), subject_or_anonymous(None), slab[i].1);
    }
}

/// A memoref of memo 0 under subject `s`, for lemmas that ask for one.
pub open spec fn memo_of_subject(s: SubjectId) -> MemoRef {
    MemoRef { memo_id: 0, subject_id: s }
}

/// What `peers_encoded` says of a segment list, it says of a refinement of it.
pub proof fn lemma_peers_encoded_refine(segs1: Seq<NetbufSegment>, segs2: Seq<NetbufSegment>, ps: Seq<MemoPeerStateBuffer>, peers: Seq<MemoPeer>)
    requires
        segments_refine(segs1, segs2),
        peers_encoded(segs1, ps, peers),
    ensures
        peers_encoded(segs2, ps, peers),
{
    assert forall|k: int| 0 <= k < ps.len() implies names_slab(segs2, (#[trigger] ps[k]).0 as int, peers[k].slab_id) by {
        lemma_names_refine(segs1, segs2, ps[k].0 as int, memo_of_subject(subject_or_anonymous(None)), subject_or_anonymous(None), peers[k].slab_id);
    }
}

/// The entries of a well-formed memoref table point to distinct segments.
pub proof fn lemma_table_segments_distinct(segs: Seq<NetbufSegment>, memo: Seq<(SegmentId, MemoRef, bool)>)
    requires
        memoref_table_ok(segs, memo),
    ensures
        forall|a: int, b: int| 0 <= a < b < memo.len() ==> (#[trigger] memo[a]).0 != (#[trigger] memo[b]).0,
{
    assert forall|a: int, b: int| 0 <= a < b < memo.len() implies (#[trigger] memo[a]).0 != (#[trigger] memo[b]).0 by {
        assert(memoref_lt(memo[a].1, memo[b].1));
        crate::stash::lemma_subject_key_injective(memo[a].1.subject_id, memo[b].1.subject_id);
        assert(names_memo(segs, memo[a].0 as int, memo[a].1));
        assert(names_memo(segs, memo[b].0 as int, memo[b].1));
    }
}

/// `mb` is memo `m`, reached through `memoref`: memorefs by their segments.
pub open spec fn memo_encoded(segs: Seq<NetbufSegment>, mb: MemoBuffer, memoref: MemoRef, m: MemoView) -> bool {
    &&& names_memo(segs, mb.0 as int, memoref)
    &&& refs_encoded(segs, mb.1@, m.parents.refs())
    &&& body_encoded(segs, m.body, mb.2)
}

/// `mb` is memo `m`, reached through `memoref`, in `segs`; where `peers` is
/// given, the memoref segment holds those peers.
pub open spec fn memo_written(segs: Seq<NetbufSegment>, mb: MemoBuffer, memoref: MemoRef, m: MemoView, peers: Option<Seq<MemoPeer>>) -> bool {
    &&& memo_encoded(segs, mb, memoref, m)
    &&& (peers matches Some(p) ==> memoref_peers_written(segs, mb.0 as int, p))
}

/// What `memo_written` says of a segment list, it says of a longer one with the same prefix.
pub proof fn lemma_memo_encoded_extend(
    segs1: Seq<NetbufSegment>,
    segs2: Seq<NetbufSegment>,
    mb: MemoBuffer,
    memoref: MemoRef,
    m: MemoView,
    peers: Option<Seq<MemoPeer>>,
)
    requires
        segments_extend(segs1, segs2),
        memo_written(segs1, mb, memoref, m, peers),
    ensures
        memo_written(segs2, mb, memoref, m, peers),
{
    lemma_names_extend(segs1, segs2, mb.0 as int, memoref, memoref.subject_id, SlabId(0));
    lemma_refs_encoded_extend(segs1, segs2, mb.1@, m.parents.refs());
    lemma_body_encoded_extend(segs1, segs2, m.body, mb.2);
    if let Some(p) = peers {
        let b = segs1[mb.0 as int]->MemoRef_0;
        assert(segs2[mb.0 as int] == segs1[mb.0 as int]);
        lemma_peers_encoded_extend(segs1, segs2, b.1->0@, p);
    }
}

/// A copy of a vector of plain values.
fn copy_vec<T: Copy>(v: &Vec<T>) -> (r: Vec<T>)
    ensures
        r@ == v@,
{
    let mut r: Vec<T> = Vec::new();
    let mut i: usize = 0;
    while i < v.len()
        invariant
            i <= v@.len(),
            r@ == v@.take(i as int),
        decreases v@.len() - i,
    {
        r.push(v[i]);
        proof {
            assert(v@.take(i + 1) =~= v@.take(i as int).push(v@[i as int]));
        }
        i = i + 1;
    }
    proof {
        assert(v@.take(v@.len() as int) =~= v@);
    }
    r
}

/// The last segment of `segs` is memo `m`, reached through `memoref`; where
/// `peers` is given, the memoref segment holds those peers.
pub open spec fn last_memo_encoded(segs: Seq<NetbufSegment>, memoref: MemoRef, m: MemoView, peers: Option<Seq<MemoPeer>>) -> bool {
    &&& segs.len() > 0
    &&& segs.last() matches NetbufSegment::Memo(mb) && memo_encoded(segs, mb, memoref, m) && (peers matches Some(
        p,
    ) ==> memoref_peers_written(segs, mb.0 as int, p))
}

/// The memorefs of memo ids `ids` under the anonymous subject.
fn anonymous_memorefs(ids: &Vec<MemoId>) -> (r: Vec<MemoRef>)
    ensures
        r@ == anonymous_refs(ids@),
{
    let mut r: Vec<MemoRef> = Vec::new();
    let mut i: usize = 0;
    while i < ids.len()
        invariant
            i <= ids@.len(),
            r@ == anonymous_refs(ids@.take(i as int)),
        decreases ids@.len() - i,
    {
        r.push(MemoRef { memo_id: ids[i], subject_id: SubjectId::anonymous() });
        proof {
            assert(anonymous_refs(ids@.take(i + 1)) =~= anonymous_refs(ids@.take(i as int)).push(
                MemoRef { memo_id: ids@[i as int], subject_id: SubjectId { id: 0, stype: SubjectType::Anonymous } },
            ));
        }
        i = i + 1;
    }
    proof {
        assert(ids@.take(ids@.len() as int) =~= ids@);
    }
    r
}

/// What `refs_encoded` says of a segment list, it says of a longer one with the same prefix.
pub proof fn lemma_refs_encoded_extend(segs1: Seq<NetbufSegment>, segs2: Seq<NetbufSegment>, offs: Seq<SegmentId>, refs: Seq<MemoRef>)
    requires
        segments_extend(segs1, segs2),
        refs_encoded(segs1, offs, refs),
    ensures
        refs_encoded(segs2, offs, refs),
{
    assert forall|k: int| 0 <= k < offs.len() implies names_memo(segs2, #[trigger] offs[k] as int, refs[k]) by {
        lemma_names_extend(segs1, segs2, offs[k] as int, refs[k], refs[k].subject_id, SlabId(0));
    }
}

/// What `peers_encoded` says of a segment list, it says of a longer one with the same prefix.
pub proof fn lemma_peers_encoded_extend(segs1: Seq<NetbufSegment>, segs2: Seq<NetbufSegment>, ps: Seq<MemoPeerStateBuffer>, peers: Seq<MemoPeer>)
    requires
        segments_extend(segs1, segs2),
        peers_encoded(segs1, ps, peers),
    ensures
        peers_encoded(segs2, ps, peers),
{
    assert forall|k: int| 0 <= k < ps.len() implies names_slab(segs2, (#[trigger] ps[k]).0 as int, peers[k].slab_id) by {
        lemma_names_extend(segs1, segs2, ps[k].0 as int, MemoRef { memo_id: 0, subject_id: SubjectId { id: 0, stype: SubjectType::Anonymous } }, SubjectId { id: 0, stype: SubjectType::Anonymous }, peers[k].slab_id);
    }
}

} // verus!
