use vstd::prelude::*;

use crate::causal::{causal_seq, lemma_step_weight, queue_weight, step_queue, BreadthWalk};
use crate::error::RetrieveError;
use crate::memorefhead::{HeadView, MemoRefHead};
use crate::slab::{
    memos_wf, MemoId,
    BodyView, EdgeSet, MemoBody, MemoRef, MemoView, RelationSet, RelationSlotId, Slab, SubjectId,
    ValueSet,
};

verus! {

/// The number of relation slots of a subject.
pub const SUBJECT_MAX_RELATIONS: usize = 256;

/// What a relation slot of a subject holds: nothing, or the head of the related subject.
#[derive(Debug)]
pub enum EdgeLink {
    Vacant { slot_id: RelationSlotId },
    Occupied { slot_id: RelationSlotId, head: MemoRefHead },
}

/// The mathematical value of an `EdgeLink`.
pub enum LinkView {
    Vacant(RelationSlotId),
    Occupied(RelationSlotId, HeadView),
}

impl View for EdgeLink {
    type V = LinkView;

    open spec fn view(&self) -> LinkView {
        match self {
            EdgeLink::Vacant { slot_id } => LinkView::Vacant(*slot_id),
            EdgeLink::Occupied { slot_id, head } => LinkView::Occupied(*slot_id, head@),
        }
    }
}

/// The value of `k` in the association list `s`: its first occurrence.
pub open spec fn lookup<K, V>(s: Seq<(K, V)>, k: K) -> Option<V>
    decreases s.len(),
{
    if s.len() == 0 {
        None
    } else {
        match lookup(s.drop_last(), k) {
            Some(v) => Some(v),
            None => if s.last().0 == k {
                Some(s.last().1)
            } else {
                None
            },
        }
    }
}

/// A key that `lookup` finds has an entry with that value.
pub proof fn lemma_lookup_found<K, V>(s: Seq<(K, V)>, k: K)
    requires
        lookup(s, k) is Some,
    ensures
        exists|j: int| 0 <= j < s.len() && #[trigger] s[j] == (k, lookup(s, k).unwrap()),
    decreases s.len(),
{
    match lookup(s.drop_last(), k) {
        Some(v) => {
            lemma_lookup_found(s.drop_last(), k);
            let j = choose|j: int| 0 <= j < s.drop_last().len() && #[trigger] s.drop_last()[j] == (k, v);
            assert(s[j] == s.drop_last()[j]);
        },
        None => {
            assert(s[s.len() - 1] == s.last());
        },
    }
}

/// A key found in a prefix keeps its value in the whole list.
pub proof fn lemma_lookup_extend<K, V>(s: Seq<(K, V)>, i: int, k: K)
    requires
        0 <= i <= s.len(),
        lookup(s.take(i), k) is Some,
    ensures
        lookup(s, k) == lookup(s.take(i), k),
    decreases s.len(),
{
    if i == s.len() {
        assert(s.take(i) =~= s);
    } else {
        assert(s.drop_last().take(i) =~= s.take(i));
        lemma_lookup_extend(s.drop_last(), i, k);
    }
}

/// Looking one element further in a list.
pub proof fn lemma_lookup_step<K, V>(s: Seq<(K, V)>, i: int, k: K)
    requires
        0 <= i < s.len(),
    ensures
        lookup(s.take(i + 1), k) == (match lookup(s.take(i), k) {
            Some(v) => Some(v),
            None => if s[i].0 == k {
                Some(s[i].1)
            } else {
                None
            },
        }),
{
    assert(s.take(i + 1).drop_last() =~= s.take(i));
    assert(s.take(i + 1).last() == s[i]);
}

/// The value of `key` along `order`: the first memo that edits or fully
/// materializes values and holds `key` gives it; a fully materialized memo
/// without it ends the search.
pub open spec fn project_value_in(memos: Seq<MemoView>, order: Seq<MemoRef>, key: Seq<char>) -> Option<Seq<char>>
    decreases order.len(),
{
    if order.len() == 0 {
        None
    } else {
        let r = order[0];
        let rest = order.drop_first();
        if r.memo_id < memos.len() {
            match memos[r.memo_id as int].body {
                BodyView::Edit(v) => match lookup(v, key) {
                    Some(x) => Some(x),
                    None => project_value_in(memos, rest, key),
                },
                BodyView::FullyMaterialized(v, _, _, _) => lookup(v, key),
                _ => project_value_in(memos, rest, key),
            }
        } else {
            project_value_in(memos, rest, key)
        }
    }
}

/// Read after write: on the head of a new memo that edits `key` (or fully
/// materializes values holding it), projecting `key` gives the value written.
pub proof fn lemma_value_readback(
    memos: Seq<MemoView>,
    subject_id: SubjectId,
    parents: HeadView,
    body: BodyView,
    key: Seq<char>,
)
    requires
        memos_wf(Slab::added(memos, subject_id, parents, body)),
        body matches BodyView::Edit(v) && lookup(v, key) is Some || body matches BodyView::FullyMaterialized(v, _, _, _),
    ensures
        ({
            let after = Slab::added(memos, subject_id, parents, body);
            let r = MemoRef { memo_id: memos.len() as MemoId, subject_id };
            project_value_in(after, causal_seq(after, r.spec_to_head().refs()), key) == match body {
                BodyView::Edit(v) => lookup(v, key),
                BodyView::FullyMaterialized(v, _, _, _) => lookup(v, key),
                _ => None,
            }
        }),
{
    let after = Slab::added(memos, subject_id, parents, body);
    let r = MemoRef { memo_id: memos.len() as MemoId, subject_id };
    assert(r.spec_to_head().refs() =~= seq![r]);
    assert(after[memos.len() as int].id == memos.len());
    assert(causal_seq(after, seq![r])[0] == r);
}

/// The relation in `slot` along `order` (`None`: not found).
pub open spec fn project_relation_in(memos: Seq<MemoView>, order: Seq<MemoRef>, slot: RelationSlotId) -> Option<
    Option<SubjectId>,
>
    decreases order.len(),
{
    if order.len() == 0 {
        None
    } else {
        let r = order[0];
        let rest = order.drop_first();
        if r.memo_id < memos.len() {
            match memos[r.memo_id as int].body {
                BodyView::Relation(rs) => match lookup(rs, slot) {
                    Some(x) => Some(x),
                    None => project_relation_in(memos, rest, slot),
                },
                BodyView::FullyMaterialized(_, rs, _, _) => lookup(rs, slot),
                _ => project_relation_in(memos, rest, slot),
            }
        } else {
            project_relation_in(memos, rest, slot)
        }
    }
}

/// The edge in `slot` along `order` (`None`: not found).
pub open spec fn project_edge_in(memos: Seq<MemoView>, order: Seq<MemoRef>, slot: RelationSlotId) -> Option<HeadView>
    decreases order.len(),
{
    if order.len() == 0 {
        None
    } else {
        let r = order[0];
        let rest = order.drop_first();
        if r.memo_id < memos.len() {
            match memos[r.memo_id as int].body {
                BodyView::Edge(es) => match lookup(es, slot) {
                    Some(x) => Some(x),
                    None => project_edge_in(memos, rest, slot),
                },
                BodyView::FullyMaterialized(_, _, es, _) => lookup(es, slot),
                _ => project_edge_in(memos, rest, slot),
            }
        } else {
            project_edge_in(memos, rest, slot)
        }
    }
}

/// Read after write: on the head of a new memo that sets relation `slot`
/// (or fully materializes relations), projecting `slot` gives what was written.
pub proof fn lemma_relation_readback(
    memos: Seq<MemoView>,
    subject_id: SubjectId,
    parents: HeadView,
    body: BodyView,
    slot: RelationSlotId,
)
    requires
        memos_wf(Slab::added(memos, subject_id, parents, body)),
        body matches BodyView::Relation(rs) && lookup(rs, slot) is Some || body matches BodyView::FullyMaterialized(_, _, _, _),
    ensures
        ({
            let after = Slab::added(memos, subject_id, parents, body);
            let r = MemoRef { memo_id: memos.len() as MemoId, subject_id };
            project_relation_in(after, causal_seq(after, r.spec_to_head().refs()), slot) == match body {
                BodyView::Relation(rs) => lookup(rs, slot),
                BodyView::FullyMaterialized(_, rs, _, _) => lookup(rs, slot),
                _ => None,
            }
        }),
{
    let after = Slab::added(memos, subject_id, parents, body);
    let r = MemoRef { memo_id: memos.len() as MemoId, subject_id };
    assert(r.spec_to_head().refs() =~= seq![r]);
    assert(after[memos.len() as int].id == memos.len());
    assert(causal_seq(after, seq![r])[0] == r);
}

/// Read after write: on the head of a new memo that sets edge `slot` (or
/// fully materializes edges), projecting `slot` gives what was written.
pub proof fn lemma_edge_readback(
    memos: Seq<MemoView>,
    subject_id: SubjectId,
    parents: HeadView,
    body: BodyView,
    slot: RelationSlotId,
)
    requires
        memos_wf(Slab::added(memos, subject_id, parents, body)),
        body matches BodyView::Edge(es) && lookup(es, slot) is Some || body matches BodyView::FullyMaterialized(_, _, _, _),
    ensures
        ({
            let after = Slab::added(memos, subject_id, parents, body);
            let r = MemoRef { memo_id: memos.len() as MemoId, subject_id };
            project_edge_in(after, causal_seq(after, r.spec_to_head().refs()), slot) == match body {
                BodyView::Edge(es) => lookup(es, slot),
                BodyView::FullyMaterialized(_, _, es, _) => lookup(es, slot),
                _ => None,
            }
        }),
{
    let after = Slab::added(memos, subject_id, parents, body);
    let r = MemoRef { memo_id: memos.len() as MemoId, subject_id };
    assert(r.spec_to_head().refs() =~= seq![r]);
    assert(after[memos.len() as int].id == memos.len());
    assert(causal_seq(after, seq![r])[0] == r);
}

/// Unfolding the walk from the head of one memo: the memo comes first, then
/// the walk from its parents' head.
proof fn lemma_walk_from_memo(memos: Seq<MemoView>, b: MemoRef)
    requires
        memos_wf(memos),
        b.memo_id < memos.len(),
    ensures
        causal_seq(memos, b.spec_to_head().refs()).len() > 0,
        causal_seq(memos, b.spec_to_head().refs())[0] == b,
        causal_seq(memos, b.spec_to_head().refs()).drop_first() == causal_seq(
            memos,
            memos[b.memo_id as int].parents.refs(),
        ),
{
    let q = b.spec_to_head().refs();
    assert(q =~= seq![b]);
    lemma_step_weight(memos, q);
    assert(step_queue(memos, q) =~= memos[b.memo_id as int].parents.refs());
    let c = causal_seq(memos, q);
    assert(c == seq![b] + causal_seq(memos, step_queue(memos, q)));
    assert(c.drop_first() =~= causal_seq(memos, step_queue(memos, q)));
}

/// Read through a later write elsewhere: a memo that neither edits `key` nor
/// fully materializes values leaves the value of `key` as its parents' head
/// projects it.
pub proof fn lemma_value_read_through(memos: Seq<MemoView>, b: MemoRef, key: Seq<char>)
    requires
        memos_wf(memos),
        b.memo_id < memos.len(),
        !(memos[b.memo_id as int].body is FullyMaterialized),
        !(memos[b.memo_id as int].body matches BodyView::Edit(v) && lookup(v, key) is Some),
    ensures
        project_value_in(memos, causal_seq(memos, b.spec_to_head().refs()), key) == project_value_in(
            memos,
            causal_seq(memos, memos[b.memo_id as int].parents.refs()),
            key,
        ),
{
    lemma_walk_from_memo(memos, b);
}

/// Read through a later write to another slot: a memo that neither sets
/// relation `slot` nor fully materializes relations leaves the relation in
/// `slot` as its parents' head projects it.
pub proof fn lemma_relation_read_through(memos: Seq<MemoView>, b: MemoRef, slot: RelationSlotId)
    requires
        memos_wf(memos),
        b.memo_id < memos.len(),
        !(memos[b.memo_id as int].body is FullyMaterialized),
        !(memos[b.memo_id as int].body matches BodyView::Relation(rs) && lookup(rs, slot) is Some),
    ensures
        project_relation_in(memos, causal_seq(memos, b.spec_to_head().refs()), slot) == project_relation_in(
            memos,
            causal_seq(memos, memos[b.memo_id as int].parents.refs()),
            slot,
        ),
{
    lemma_walk_from_memo(memos, b);
}

/// Read through a later write to another slot: a memo that neither sets edge
/// `slot` nor fully materializes edges leaves the edge in `slot` as its
/// parents' head projects it.
pub proof fn lemma_edge_read_through(memos: Seq<MemoView>, b: MemoRef, slot: RelationSlotId)
    requires
        memos_wf(memos),
        b.memo_id < memos.len(),
        !(memos[b.memo_id as int].body is FullyMaterialized),
        !(memos[b.memo_id as int].body matches BodyView::Edge(es) && lookup(es, slot) is Some),
    ensures
        project_edge_in(memos, causal_seq(memos, b.spec_to_head().refs()), slot) == project_edge_in(
            memos,
            causal_seq(memos, memos[b.memo_id as int].parents.refs()),
            slot,
        ),
{
    lemma_walk_from_memo(memos, b);
}

/// The edge link of `slot` for a projected edge (`None`: never set).
pub open spec fn link_of(slot: RelationSlotId, h: Option<HeadView>) -> LinkView {
    match h {
        None => LinkView::Vacant(slot),
        Some(h) => if h is Null {
            LinkView::Vacant(slot)
        } else {
            LinkView::Occupied(slot, h)
        },
    }
}

/// An optional head, by value.
pub open spec fn opt_head_view(o: Option<MemoRefHead>) -> Option<HeadView> {
    match o {
        None => None,
        Some(h) => Some(h@),
    }
}

/// The earlier finding, or else the later one.
pub open spec fn resolve<T>(earlier: Option<T>, later: Option<T>) -> Option<T> {
    match earlier {
        Some(x) => Some(x),
        None => later,
    }
}

impl ValueSet {
    /// The value of `key` (its first occurrence).
    pub fn get(&self, key: &String) -> (r: Option<&String>)
        ensures
            opt_string_view(r) == lookup(self@, key@),
    {
        let n = self.0.len();
        let mut i: usize = 0;
        proof { assert(self@.take(0) =~= Seq::<(Seq<char>, Seq<char>)>::empty()); }
        while i < n
            invariant
                n == self.0@.len(),
                n == self@.len(),
                i <= n,
                lookup(self@.take(i as int), key@) is None,
            decreases n - i,
        {
            proof {
                lemma_lookup_step(self@, i as int, key@);
            }
            if self.0[i].0 == *key {
                proof {
                    lemma_lookup_extend(self@, i + 1, key@);
                }
                return Some(&self.0[i].1);
            }
            i = i + 1;
        }
        proof {
            assert(self@.take(n as int) =~= self@);
        }
        None
    }
}

impl RelationSet {
    /// The relation in `slot` (its first occurrence).
    pub fn get(&self, slot: RelationSlotId) -> (r: Option<Option<SubjectId>>)
        ensures
            r == lookup(self@, slot),
    {
        let n = self.0.len();
        let mut i: usize = 0;
        proof { assert(self@.take(0) =~= Seq::<(RelationSlotId, Option<SubjectId>)>::empty()); }
        while i < n
            invariant
                n == self@.len(),
                i <= n,
                lookup(self@.take(i as int), slot) is None,
            decreases n - i,
        {
            proof {
                lemma_lookup_step(self@, i as int, slot);
            }
            if self.0[i].0 == slot {
                proof {
                    lemma_lookup_extend(self@, i + 1, slot);
                }
                return Some(self.0[i].1);
            }
            i = i + 1;
        }
        proof {
            assert(self@.take(n as int) =~= self@);
        }
        None
    }
}

impl EdgeSet {
    /// The edge in `slot` (its first occurrence).
    pub fn get(&self, slot: RelationSlotId) -> (r: Option<&MemoRefHead>)
        ensures
            opt_head_ref_view(r) == lookup(self@, slot),
    {
        let n = self.0.len();
        let mut i: usize = 0;
        proof { assert(self@.take(0) =~= Seq::<(RelationSlotId, HeadView)>::empty()); }
        while i < n
            invariant
                n == self.0@.len(),
                n == self@.len(),
                i <= n,
                lookup(self@.take(i as int), slot) is None,
            decreases n - i,
        {
            proof {
                lemma_lookup_step(self@, i as int, slot);
            }
            if self.0[i].0 == slot {
                proof {
                    lemma_lookup_extend(self@, i + 1, slot);
                }
                return Some(&self.0[i].1);
            }
            i = i + 1;
        }
        proof {
            assert(self@.take(n as int) =~= self@);
        }
        None
    }
}

/// No key occurs twice in the association list `s`.
pub open spec fn keys_distinct<K, V>(s: Seq<(K, V)>) -> bool {
    forall|i: int, j: int| 0 <= i < j < s.len() ==> (#[trigger] s[i]).0 != (#[trigger] s[j]).0
}

/// Looking up a key other than the one at a position does not see an update there.
pub proof fn lemma_lookup_update_other<K, V>(s: Seq<(K, V)>, j: int, x: (K, V), k: K)
    requires
        0 <= j < s.len(),
        s[j].0 != k,
        x.0 != k,
    ensures
        lookup(s.update(j, x), k) == lookup(s, k),
    decreases s.len(),
{
    if j == s.len() - 1 {
        assert(s.update(j, x).drop_last() =~= s.drop_last());
    } else {
        assert(s.update(j, x).drop_last() =~= s.drop_last().update(j, x));
        lemma_lookup_update_other(s.drop_last(), j, x, k);
    }
}

impl EdgeSet {
    /// An edge set without edges.
    pub fn empty() -> (r: EdgeSet)
        ensures
            r@ == Seq::<(RelationSlotId, HeadView)>::empty(),
            keys_distinct(r@),
    {
        let r = EdgeSet(Vec::new());
        proof {
            assert(r@ =~= Seq::<(RelationSlotId, HeadView)>::empty());
        }
        r
    }

    /// The number of edges.
    pub fn len(&self) -> (r: usize)
        ensures
            r == self@.len(),
    {
        self.0.len()
    }

    /// Sets the edge of `slot` to `head`, replacing the edge it had; an
    /// edge set with one edge per slot keeps one edge per slot.
    pub fn insert(&mut self, slot: RelationSlotId, head: MemoRefHead)
        ensures
            keys_distinct(old(self)@) ==> keys_distinct(final(self)@),
            lookup(final(self)@, slot) == Some(head@),
            forall|k: RelationSlotId| k != slot ==> #[trigger] lookup(final(self)@, k) == lookup(old(self)@, k),
            final(self)@.len() <= old(self)@.len() + 1,
            forall|i: int|
                0 <= i < final(self)@.len() ==> (i < old(self)@.len() && #[trigger] final(self)@[i] == old(self)@[i])
                    || final(self)@[i] == (slot, head@),
    {
        let ghost es = self@;
        let ghost hv = head@;
        let n = self.0.len();
        let mut j: usize = 0;
        proof {
            assert(es.take(0) =~= Seq::<(RelationSlotId, HeadView)>::empty());
        }
        while j < n
            invariant
                n == self.0@.len(),
                n == es.len(),
                self@ == es,
                es == old(self)@,
                head@ == hv,
                j <= n,
                lookup(es.take(j as int), slot) is None,
            decreases n - j,
        {
            proof {
                lemma_lookup_step(es, j as int, slot);
            }
            if self.0[j].0 == slot {
                let ghost before = self.0@;
                let ghost hval = head;
                self.0.set(j, (slot, head));
                proof {
                    let after = self@;
                    assert(self.0@ == before.update(j as int, (slot, hval)));
                    assert(hval@ == hv);
                    assert(after.len() == es.len());
                    assert forall|i: int| 0 <= i < after.len() implies #[trigger] after[i] == es.update(j as int, (slot, hv))[i] by {
                        assert(after[i] == (self.0@[i].0, self.0@[i].1@));
                        assert(es[i] == (before[i].0, before[i].1@));
                        if i != j as int {
                            assert(self.0@[i] == before[i]);
                        } else {
                            assert(self.0@[i] == (slot, hval));
                        }
                    }
                    assert(after =~= es.update(j as int, (slot, hv)));
                    lemma_lookup_step(after, j as int, slot);
                    assert(after.take(j as int) =~= es.take(j as int));
                    lemma_lookup_extend(after, j + 1, slot);
                    assert forall|k: RelationSlotId| k != slot implies #[trigger] lookup(after, k) == lookup(es, k) by {
                        lemma_lookup_update_other(es, j as int, (slot, hv), k);
                    }
                    assert forall|a: int| 0 <= a < after.len() implies (#[trigger] after[a]).0 == es[a].0 by {
                        if a == j as int {
                            assert(es[a].0 == slot);
                        }
                    }
                }
                return;
            }
            j = j + 1;
        }
        let ghost before = self.0@;
        self.0.push((slot, head));
        proof {
            let after = self@;
            assert(es.take(n as int) =~= es);
            assert(after =~= es.push((slot, hv)));
            assert(after.drop_last() =~= es);
            assert forall|k: RelationSlotId| k != slot implies #[trigger] lookup(after, k) == lookup(es, k) by {}
            lemma_lookup_none(es, slot);
            assert forall|a: int, b: int| 0 <= a < b < after.len() && keys_distinct(es) implies (#[trigger] after[a]).0 != (#[trigger] after[b]).0 by {
                assert(after[a] == es[a]);
                if b < es.len() {
                    assert(after[b] == es[b]);
                }
            }
        }
    }
}

/// A key that `lookup` does not find is the key of no entry.
pub proof fn lemma_lookup_none<K, V>(s: Seq<(K, V)>, k: K)
    requires
        lookup(s, k) is None,
    ensures
        forall|i: int| 0 <= i < s.len() ==> (#[trigger] s[i]).0 != k,
    decreases s.len(),
{
    if s.len() > 0 {
        lemma_lookup_none(s.drop_last(), k);
        assert forall|i: int| 0 <= i < s.len() implies (#[trigger] s[i]).0 != k by {
            if i < s.len() - 1 {
                assert(s[i] == s.drop_last()[i]);
            }
        }
    }
}

/// An optional head reference, by value.
pub open spec fn opt_head_ref_view(o: Option<&MemoRefHead>) -> Option<HeadView> {
    match o {
        None => None,
        Some(h) => Some(h@),
    }
}

/// An optional string, by value.
pub open spec fn opt_string_view(o: Option<&String>) -> Option<Seq<char>> {
    match o {
        None => None,
        Some(s) => Some(s@),
    }
}

impl MemoRefHead {
    /// The value of `key` for this head: the most recent edit of it along
    /// the causal history, back to the last full materialization.
    pub fn project_value(&self, slab: &Slab, key: &str) -> (r: Option<String>)
        requires
            slab.wf(),
        ensures
            opt_owned_string_view(r) == project_value_in(slab.memos(), causal_seq(slab.memos(), self@.refs()), key@),
    {
        let ghost memos = slab.memos();
        let k = <String as vstd::string::StringExecFns>::from_str(key);
        let mut iter = BreadthWalk::from_head(self);
        loop
            invariant
                slab.wf(),
                memos == slab.memos(),
                k@ == key@,
                project_value_in(memos, causal_seq(memos, self@.refs()), key@) == project_value_in(
                    memos,
                    causal_seq(memos, iter@),
                    key@,
                ),
            decreases queue_weight(memos, iter@),
        {
            let ghost q = iter@;
            match iter.next(slab) {
                None => {
                    proof {
                        assert(causal_seq(memos, q) =~= Seq::<MemoRef>::empty());
                    }
                    return None;
                },
                Some(item) => {
                    proof {
                        assert((seq![q[0]] + causal_seq(memos, iter@)).drop_first() =~= causal_seq(memos, iter@));
                    }
                    match item {
                        Ok(memo) => {
                            match &memo.body {
                                MemoBody::Edit(v) => {
                                    match v.get(&k) {
                                        Some(x) => {
                                            return Some(x.clone());
                                        },
                                        None => {},
                                    }
                                },
                                MemoBody::FullyMaterialized { v, .. } => {
                                    match v.get(&k) {
                                        Some(x) => {
                                            return Some(x.clone());
                                        },
                                        None => {
                                            return None;
                                        },
                                    }
                                },
                                _ => {},
                            }
                        },
                        Err(_) => {},
                    }
                },
            }
        }
    }

    /// The subject related in `key` for this head, or `NotFound`.
    pub fn project_relation(&self, slab: &Slab, key: RelationSlotId) -> (r: Result<Option<SubjectId>, RetrieveError>)
        requires
            slab.wf(),
        ensures
            project_relation_in(slab.memos(), causal_seq(slab.memos(), self@.refs()), key) matches Some(x) ==> r
                == Ok::<Option<SubjectId>, RetrieveError>(x),
            project_relation_in(slab.memos(), causal_seq(slab.memos(), self@.refs()), key) is None ==> r
                == Err::<Option<SubjectId>, RetrieveError>(RetrieveError::NotFound),
    {
        let ghost memos = slab.memos();
        let mut iter = BreadthWalk::from_head(self);
        loop
            invariant
                slab.wf(),
                memos == slab.memos(),
                project_relation_in(memos, causal_seq(memos, self@.refs()), key) == project_relation_in(
                    memos,
                    causal_seq(memos, iter@),
                    key,
                ),
            decreases queue_weight(memos, iter@),
        {
            let ghost q = iter@;
            match iter.next(slab) {
                None => {
                    proof {
                        assert(causal_seq(memos, q) =~= Seq::<MemoRef>::empty());
                    }
                    return Err(RetrieveError::NotFound);
                },
                Some(item) => {
                    proof {
                        assert((seq![q[0]] + causal_seq(memos, iter@)).drop_first() =~= causal_seq(memos, iter@));
                    }
                    match item {
                        Ok(memo) => {
                            match &memo.body {
                                MemoBody::Relation(rs) => {
                                    match rs.get(key) {
                                        Some(x) => {
                                            return Ok(x);
                                        },
                                        None => {},
                                    }
                                },
                                MemoBody::FullyMaterialized { r: rs, .. } => {
                                    match rs.get(key) {
                                        Some(x) => {
                                            return Ok(x);
                                        },
                                        None => {
                                            return Err(RetrieveError::NotFound);
                                        },
                                    }
                                },
                                _ => {},
                            }
                        },
                        Err(_) => {},
                    }
                },
            }
        }
    }

    /// The head related in `key` for this head, or `NotFound`.
    pub fn project_edge(&self, slab: &Slab, key: RelationSlotId) -> (r: Result<Option<MemoRefHead>, RetrieveError>)
        requires
            slab.wf(),
        ensures
            project_edge_in(slab.memos(), causal_seq(slab.memos(), self@.refs()), key) matches Some(x) ==> (r
                matches Ok(Some(h)) && h@ == x),
            project_edge_in(slab.memos(), causal_seq(slab.memos(), self@.refs()), key) is None ==> r
                == Err::<Option<MemoRefHead>, RetrieveError>(RetrieveError::NotFound),
    {
        let ghost memos = slab.memos();
        let mut iter = BreadthWalk::from_head(self);
        loop
            invariant
                slab.wf(),
                memos == slab.memos(),
                project_edge_in(memos, causal_seq(memos, self@.refs()), key) == project_edge_in(
                    memos,
                    causal_seq(memos, iter@),
                    key,
                ),
            decreases queue_weight(memos, iter@),
        {
            let ghost q = iter@;
            match iter.next(slab) {
                None => {
                    proof {
                        assert(causal_seq(memos, q) =~= Seq::<MemoRef>::empty());
                    }
                    return Err(RetrieveError::NotFound);
                },
                Some(item) => {
                    proof {
                        assert((seq![q[0]] + causal_seq(memos, iter@)).drop_first() =~= causal_seq(memos, iter@));
                    }
                    match item {
                        Ok(memo) => {
                            match &memo.body {
                                MemoBody::Edge(es) => {
                                    match es.get(key) {
                                        Some(x) => {
                                            return Ok(Some(x.clone_head()));
                                        },
                                        None => {},
                                    }
                                },
                                MemoBody::FullyMaterialized { e: es, .. } => {
                                    match es.get(key) {
                                        Some(x) => {
                                            return Ok(Some(x.clone_head()));
                                        },
                                        None => {
                                            return Err(RetrieveError::NotFound);
                                        },
                                    }
                                },
                                _ => {},
                            }
                        },
                        Err(_) => {},
                    }
                },
            }
        }
    }

    /// The edge link of every relation slot of this head: the most recent
    /// edge set for the slot along the causal history, back to the last full
    /// materialization; slots never set, or set to a null head, are vacant.
    pub fn project_all_edge_links_including_empties(&self, slab: &Slab) -> (r: Vec<EdgeLink>)
        requires
            slab.wf(),
        ensures
            r@.len() == SUBJECT_MAX_RELATIONS,
            forall|s: int|
                0 <= s < SUBJECT_MAX_RELATIONS ==> (#[trigger] r@[s])@ == link_of(
                    s as RelationSlotId,
                    project_edge_in(slab.memos(), causal_seq(slab.memos(), self@.refs()), s as RelationSlotId),
                ),
    {
        let ghost memos = slab.memos();
        let ghost order0 = causal_seq(memos, self@.refs());
        let mut found: Vec<Option<MemoRefHead>> = Vec::new();
        let mut i: usize = 0;
        while i < SUBJECT_MAX_RELATIONS
            invariant
                i <= SUBJECT_MAX_RELATIONS,
                found@.len() == i,
                forall|s: int| 0 <= s < i ==> (#[trigger] found@[s]) is None,
            decreases SUBJECT_MAX_RELATIONS - i,
        {
            found.push(None);
            i = i + 1;
        }
        let mut iter = BreadthWalk::from_head(self);
        loop
            invariant_except_break
                forall|s: int|
                    0 <= s < SUBJECT_MAX_RELATIONS ==> project_edge_in(memos, order0, s as RelationSlotId) == resolve(
                        opt_head_view(#[trigger] found@[s]),
                        project_edge_in(memos, causal_seq(memos, iter@), s as RelationSlotId),
                    ),
            invariant
                slab.wf(),
                memos == slab.memos(),
                order0 == causal_seq(memos, self@.refs()),
                found@.len() == SUBJECT_MAX_RELATIONS,
            ensures
                found@.len() == SUBJECT_MAX_RELATIONS,
                forall|s: int|
                    0 <= s < SUBJECT_MAX_RELATIONS ==> project_edge_in(memos, order0, s as RelationSlotId)
                        == opt_head_view(#[trigger] found@[s]),
            decreases queue_weight(memos, iter@),
        {
            let ghost q = iter@;
            match iter.next(slab) {
                None => {
                    proof {
                        assert(causal_seq(memos, q) =~= Seq::<MemoRef>::empty());
                    }
                    break;
                },
                Some(item) => {
                    proof {
                        assert((seq![q[0]] + causal_seq(memos, iter@)).drop_first() =~= causal_seq(memos, iter@));
                    }
                    match item {
                        Ok(memo) => {
                            match &memo.body {
                                MemoBody::Edge(es) => {
                                    fill_links(&mut found, es);
                                },
                                MemoBody::FullyMaterialized { e: es, .. } => {
                                    fill_links(&mut found, es);
                                    break;
                                },
                                _ => {},
                            }
                        },
                        Err(_) => {},
                    }
                },
            }
        }
        let mut links: Vec<EdgeLink> = Vec::new();
        let mut s: usize = 0;
        while s < SUBJECT_MAX_RELATIONS
            invariant
                s <= SUBJECT_MAX_RELATIONS,
                links@.len() == s,
                found@.len() == SUBJECT_MAX_RELATIONS,
                forall|t: int|
                    0 <= t < s ==> (#[trigger] links@[t])@ == link_of(t as RelationSlotId, opt_head_view(found@[t])),
            decreases SUBJECT_MAX_RELATIONS - s,
        {
            let slot = s as u8;
            let link = match &found[s] {
                None => EdgeLink::Vacant { slot_id: slot },
                Some(h) => {
                    if h.is_some() {
                        EdgeLink::Occupied { slot_id: slot, head: h.clone_head() }
                    } else {
                        EdgeLink::Vacant { slot_id: slot }
                    }
                },
            };
            links.push(link);
            s = s + 1;
        }
        links
    }

    /// The occupied edge links of this head.
    pub fn project_occupied_edges(&self, slab: &Slab) -> (r: Vec<EdgeLink>)
        requires
            slab.wf(),
        ensures
            r@.map_values(|l: EdgeLink| l@) == occupied_links(
                Seq::new(
                    SUBJECT_MAX_RELATIONS as nat,
                    |s: int|
                        link_of(
                            s as RelationSlotId,
                            project_edge_in(slab.memos(), causal_seq(slab.memos(), self@.refs()), s as RelationSlotId),
                        ),
                ),
            ),
    {
        let ghost all = Seq::new(
            SUBJECT_MAX_RELATIONS as nat,
            |s: int|
                link_of(
                    s as RelationSlotId,
                    project_edge_in(slab.memos(), causal_seq(slab.memos(), self@.refs()), s as RelationSlotId),
                ),
        );
        let links = self.project_all_edge_links_including_empties(slab);
        let mut r: Vec<EdgeLink> = Vec::new();
        let mut i: usize = 0;
        proof {
            assert(r@.map_values(|l: EdgeLink| l@) =~= occupied_links(all.take(0)));
        }
        while i < SUBJECT_MAX_RELATIONS
            invariant
                i <= SUBJECT_MAX_RELATIONS,
                all.len() == SUBJECT_MAX_RELATIONS,
                links@.len() == SUBJECT_MAX_RELATIONS,
                forall|s: int| 0 <= s < SUBJECT_MAX_RELATIONS ==> (#[trigger] links@[s])@ == all[s],
                r@.map_values(|l: EdgeLink| l@) == occupied_links(all.take(i as int)),
            decreases SUBJECT_MAX_RELATIONS - i,
        {
            proof {
                assert(all.take(i + 1).drop_last() =~= all.take(i as int));
                assert(all.take(i + 1).last() == all[i as int]);
                assert(links@[i as int]@ == all[i as int]);
            }
            match &links[i] {
                EdgeLink::Occupied { slot_id, head } => {
                    let ghost before = r@;
                    r.push(EdgeLink::Occupied { slot_id: *slot_id, head: head.clone_head() });
                    proof {
                        assert(r@.map_values(|l: EdgeLink| l@) =~= before.map_values(|l: EdgeLink| l@).push(all[i as int]));
                    }
                },
                EdgeLink::Vacant { .. } => {},
            }
            i = i + 1;
        }
        proof {
            assert(all.take(SUBJECT_MAX_RELATIONS as int) =~= all);
        }
        r
    }
}

/// An optional owned string, by value.
pub open spec fn opt_owned_string_view(o: Option<String>) -> Option<Seq<char>> {
    match o {
        None => None,
        Some(s) => Some(s@),
    }
}

/// The occupied links of `links`, in order.
pub open spec fn occupied_links(links: Seq<LinkView>) -> Seq<LinkView>
    decreases links.len(),
{
    if links.len() == 0 {
        Seq::empty()
    } else if links.last() is Occupied {
        occupied_links(links.drop_last()).push(links.last())
    } else {
        occupied_links(links.drop_last())
    }
}

/// The occupied links are exactly the occupied links among all of them.
pub proof fn lemma_occupied_links_contains(links: Seq<LinkView>, x: LinkView)
    ensures
        occupied_links(links).contains(x) <==> (links.contains(x) && x is Occupied),
    decreases links.len(),
{
    if links.len() > 0 {
        let rest = links.drop_last();
        lemma_occupied_links_contains(rest, x);
        assert(links =~= rest.push(links.last()));
        if rest.contains(x) {
            let i = choose|i: int| 0 <= i < rest.len() && rest[i] == x;
            assert(links[i] == x);
        }
        if links.contains(x) && x != links.last() {
            let i = choose|i: int| 0 <= i < links.len() && links[i] == x;
            assert(i < links.len() - 1);
            assert(rest[i] == x);
        }
        if links.last() is Occupied {
            let o = occupied_links(rest).push(links.last());
            if occupied_links(rest).contains(x) {
                let i = choose|i: int| 0 <= i < occupied_links(rest).len() && occupied_links(rest)[i] == x;
                assert(o[i] == x);
            }
            if o.contains(x) && x != links.last() {
                let i = choose|i: int| 0 <= i < o.len() && o[i] == x;
                assert(i < o.len() - 1);
                assert(occupied_links(rest)[i] == x);
            }
            assert(o[o.len() - 1] == links.last());
        }
    }
}

/// Records, for each slot not yet found, the edge that `es` sets for it.
fn fill_links(found: &mut Vec<Option<MemoRefHead>>, es: &EdgeSet)
    requires
        old(found)@.len() == SUBJECT_MAX_RELATIONS,
    ensures
        final(found)@.len() == SUBJECT_MAX_RELATIONS,
        forall|s: int|
            0 <= s < SUBJECT_MAX_RELATIONS ==> opt_head_view(#[trigger] final(found)@[s]) == resolve(
                opt_head_view(old(found)@[s]),
                lookup(es@, s as RelationSlotId),
            ),
{
    let ghost old_found = found@;
    let n = es.0.len();
    let mut j: usize = 0;
    proof { assert(es@.take(0) =~= Seq::<(RelationSlotId, HeadView)>::empty()); }
    while j < n
        invariant
            n == es@.len(),
            n == es.0@.len(),
            j <= n,
            found@.len() == SUBJECT_MAX_RELATIONS,
            old_found.len() == SUBJECT_MAX_RELATIONS,
            forall|s: int|
                0 <= s < SUBJECT_MAX_RELATIONS ==> opt_head_view(#[trigger] found@[s]) == resolve(
                    opt_head_view(old_found[s]),
                    lookup(es@.take(j as int), s as RelationSlotId),
                ),
        decreases n - j,
    {
        let slot = es.0[j].0;
        proof {
            assert forall|s: int| 0 <= s < SUBJECT_MAX_RELATIONS implies #[trigger] lookup(es@.take(j + 1), s as RelationSlotId)
                == (match lookup(es@.take(j as int), s as RelationSlotId) {
                    Some(v) => Some(v),
                    None => if es@[j as int].0 == s as RelationSlotId {
                        Some(es@[j as int].1)
                    } else {
                        None
                    },
                }) by {
                lemma_lookup_step(es@, j as int, s as RelationSlotId);
            }
        }
        let unset = match &found[slot as usize] {
            None => true,
            Some(_) => false,
        };
        if unset {
            let h = es.0[j].1.clone_head();
            let ghost before = found@;
            found.set(slot as usize, Some(h));
            proof {
                assert forall|s: int| 0 <= s < SUBJECT_MAX_RELATIONS implies opt_head_view(#[trigger] found@[s]) == resolve(
                    opt_head_view(old_found[s]),
                    lookup(es@.take(j + 1), s as RelationSlotId),
                ) by {
                    if s == slot as int {
                        assert((s as RelationSlotId) == slot);
                    } else {
                        assert(found@[s] == before[s]);
                        assert((s as RelationSlotId) != slot);
                    }
                }
            }
        } else {
            proof {
                assert forall|s: int| 0 <= s < SUBJECT_MAX_RELATIONS implies opt_head_view(#[trigger] found@[s]) == resolve(
                    opt_head_view(old_found[s]),
                    lookup(es@.take(j + 1), s as RelationSlotId),
                ) by {
                    if s != slot as int {
                        assert((s as RelationSlotId) != slot);
                    }
                }
            }
        }
        j = j + 1;
    }
    proof {
        assert(es@.take(n as int) =~= es@);
    }
}

} // verus!
