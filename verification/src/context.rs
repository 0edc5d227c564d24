use vstd::prelude::*;

use crate::error::{Error, InvalidHead, RetrieveError, WriteError};
use crate::memorefhead::{
    apply_fold, covers, heads_advance, lemma_apply_child, lemma_covers_trans, lemma_doc_covers, lemma_apply_fold_accounts, lemma_single_contains_itself, lemma_heads_advance_extend, lemma_heads_advance_trans, lemma_apply_fold_valid, lemma_descends_or_contains_found, HeadView,
    MemoRefHead,
};
use crate::causal::causal_seq;
use crate::memorefhead::spec_descends_or_contains;
use crate::projection::{
    lemma_edge_readback, lemma_lookup_found, lemma_occupied_links_contains, link_of, lookup, occupied_links, project_edge_in, EdgeLink, LinkView,
    SUBJECT_MAX_RELATIONS,
};
use crate::slab::{
    descends, head_valid, lemma_head_below_extend, memos_extend, ref_valid, BodyView, EdgeSet, MemoBody,
    MemoId, MemoRef, MemoView, RelationSet, RelationSlotId, Slab, SubjectId, SubjectType, ValueSet,
};
use crate::stash::{
    applied_head, concise_of, edge_links_spec, lemma_prune_links_removes, lemma_prune_links_sub, lemma_prune_removes_only_covered, prune_links, Stash, StashIterator,
    STASH_RELATION_SLOTS,
};

verus! {

/// The edge that `add_test_subject` records in `slot` for the related heads
/// `rels`: the last subject head whose position (modulo 256) is the slot.
pub open spec fn test_edge(rels: Seq<HeadView>, n: int, slot: RelationSlotId) -> Option<HeadView>
    decreases n,
{
    if n <= 0 {
        None
    } else if ((n - 1) as RelationSlotId) == slot && rels[n - 1] is Subject {
        Some(rels[n - 1])
    } else {
        test_edge(rels, n - 1, slot)
    }
}

/// Edge link `l` points to a resident subject whose head descends or
/// contains the edge's head: the edge can be brought up to that head.
pub open spec fn link_stale(memos: Seq<MemoView>, heads: Map<SubjectId, HeadView>, l: LinkView) -> bool {
    match l {
        LinkView::Occupied(_, c) => match c.subject() {
            Some(t) => heads.contains_key(t) && spec_descends_or_contains(memos, heads[t], c) == Some(true),
            None => false,
        },
        LinkView::Vacant(_) => false,
    }
}

/// The edge links of head `h`, one for each relation slot.
pub open spec fn head_edge_links(memos: Seq<MemoView>, h: HeadView) -> Seq<LinkView> {
    Seq::new(
        SUBJECT_MAX_RELATIONS as nat,
        |s: int| link_of(s as RelationSlotId, project_edge_in(memos, causal_seq(memos, h.refs()), s as RelationSlotId)),
    )
}

/// Resident subject `p` has an edge that can be brought up to a resident head.
pub open spec fn subject_compactable(memos: Seq<MemoView>, heads: Map<SubjectId, HeadView>, p: SubjectId) -> bool {
    &&& heads.contains_key(p)
    &&& exists|l: LinkView| head_edge_links(memos, heads[p]).contains(l) && #[trigger] link_stale(memos, heads, l)
}

/// Some resident subject has an edge that can be brought up to a resident head.
pub open spec fn compaction_due(memos: Seq<MemoView>, heads: Map<SubjectId, HeadView>) -> bool {
    exists|p: SubjectId| #[trigger] subject_compactable(memos, heads, p)
}

/// Head `c`, when it is a subject's, is that subject's resident head.
pub open spec fn held_as(heads: Map<SubjectId, HeadView>, c: HeadView) -> bool {
    match c.subject() {
        Some(t) => heads.contains_key(t) && heads[t] == c,
        None => true,
    }
}

/// Memo `i` is an edge memo, and no subject other than its own to which
/// one of its slots points with a head of one memoref keeps a resident head.
pub open spec fn edge_memo_pruned(memos: Seq<MemoView>, heads: Map<SubjectId, HeadView>, i: int) -> bool {
    match memos[i].body {
        BodyView::Edge(es) => forall|p: RelationSlotId|
            #![trigger lookup(es, p)]
            match lookup(es, p) {
                Some(c) => match c.subject() {
                    Some(t) => c.refs().len() == 1 && t != memos[i].subject_id ==> !heads.contains_key(t),
                    None => true,
                },
                None => true,
            },
        _ => false,
    }
}

/// The head of memo `i`: its memoref alone.
pub open spec fn memo_head(memos: Seq<MemoView>, i: int) -> HeadView {
    (MemoRef { memo_id: i as MemoId, subject_id: memos[i].subject_id }).spec_to_head()
}

/// Slot `p` of the head of memo `i`, projected in the slab as it was when
/// memo `i` was written, holds a head of subject `s` that accounts for every
/// memoref of `h`.
pub open spec fn edge_covers(memos: Seq<MemoView>, i: int, p: int, s: SubjectId, h: HeadView) -> bool {
    match edge_links_spec(memos.take(i + 1), memo_head(memos, i))[p] {
        LinkView::Occupied(_, c) => c.subject() == Some(s) && forall|x: MemoRef|
            #[trigger] h.refs().contains(x) ==> covers(memos.take(i + 1), c.refs(), x),
        LinkView::Vacant(_) => false,
    }
}

/// Some memo from `i0` up to `i1` has an edge of subject `s` that accounts
/// for every memoref of `h`.
pub open spec fn dropped_by_edge(memos: Seq<MemoView>, i0: int, i1: int, s: SubjectId, h: HeadView) -> bool {
    exists|i: int, p: int| i0 <= i < i1 && 0 <= p < STASH_RELATION_SLOTS && #[trigger] edge_covers(memos, i, p, s, h)
}

/// A query context: the slab it reads from and the stash of subject heads
/// that its queries must take into account.
pub struct Context {
    pub slab: Slab,
    pub stash: Stash,
}

impl Context {
    /// The context is well formed: its slab and stash are, and every resident
    /// head names memos of the slab.
    pub closed spec fn wf(&self) -> bool {
        &&& self.slab.wf()
        &&& self.stash.wf()
        &&& forall|s: SubjectId| #[trigger] self.stash.heads().contains_key(s) ==> head_valid(self.slab.memos(), self.stash.heads()[s])
    }

    /// The resident heads of the context's stash, by subject.
    pub closed spec fn heads(&self) -> Map<SubjectId, HeadView> {
        self.stash.heads()
    }

    /// The subject that slot `p` of subject `s` points to in the stash.
    pub closed spec fn relation(&self, s: SubjectId, p: int) -> Option<SubjectId> {
        self.stash.relation(s, p)
    }

    /// The short texts of the stash's resident heads.
    pub closed spec fn concise(&self) -> Seq<Seq<char>> {
        self.stash.concise()
    }

    /// The short texts of the context's stash are those of its subjects with
    /// a resident head, in the stash's subject order, each with what its
    /// relation slots point to.
    pub proof fn lemma_concise(&self)
        requires
            self.wf(),
        ensures
            self.concise() == concise_of(self.stash.subjects(), self.heads(), |u: SubjectId, p: int| self.relation(u, p)),
            self.stash.concise() == self.concise(),
    {
        self.stash.lemma_concise();
        let r1 = |u: SubjectId, p: int| self.stash.relation(u, p);
        let r2 = |u: SubjectId, p: int| self.relation(u, p);
        assert(r1 =~= r2);
    }

    /// A context over `slab` with an empty stash.
    pub fn new(slab: Slab) -> (r: Context)
        requires
            slab.wf(),
        ensures
            r.wf(),
            r.slab.memos() == slab.memos(),
            r.slab.spec_slab_id() == slab.spec_slab_id(),
            r.heads() == Map::<SubjectId, HeadView>::empty(),
    {
        Context { slab, stash: Stash::new() }
    }

    /// Applies a head of an index node to the context's stash, so that later
    /// queries take it into account; returns the subject's head afterwards.
    pub fn apply_head(&mut self, head: &MemoRefHead) -> (r: Result<MemoRefHead, Error>)
        requires
            old(self).wf(),
            head_valid(old(self).slab.memos(), head@),
            head@.subject() is Some,
            head@.subject().unwrap().stype == SubjectType::IndexNode,
        ensures
            final(self).wf(),
            final(self).slab.memos() == old(self).slab.memos(),
            final(self).slab.spec_slab_id() == old(self).slab.spec_slab_id(),
            heads_advance(old(self).slab.memos(), old(self).heads(), final(self).heads()),
            final(self).heads().dom().subset_of(old(self).heads().dom().insert(head@.subject().unwrap())),
            applied_head(old(self).slab.memos(), old(self).heads(), head@) matches Some((h1, applied)) && {
                &&& r matches Ok(x) && x@ == h1
                &&& !applied ==> final(self).heads() == old(self).heads()
                &&& applied ==> final(self).heads() == prune_links(
                    old(self).slab.memos(),
                    old(self).heads().insert(head@.subject().unwrap(), h1),
                    edge_links_spec(old(self).slab.memos(), h1),
                )
                &&& applied && final(self).heads().contains_key(head@.subject().unwrap()) ==> forall|p: int|
                    0 <= p < STASH_RELATION_SLOTS ==> {
                        &&& (#[trigger] edge_links_spec(old(self).slab.memos(), h1)[p] is Vacant ==> final(self).relation(
                            head@.subject().unwrap(),
                            p,
                        ) is None)
                        &&& (edge_links_spec(old(self).slab.memos(), h1)[p] matches crate::projection::LinkView::Occupied(_, c)
                            && c is Subject ==> final(self).relation(head@.subject().unwrap(), p)
                            == edge_links_spec(old(self).slab.memos(), h1)[p]->Occupied_1.subject())
                    }
            },
    {
        let ghost memos = self.slab.memos();
        let ghost heads0 = self.stash.heads();
        let ghost s = head@.subject().unwrap();
        proof {
            assert forall|k: int| 0 <= k < head@.refs().len() implies ref_valid(memos, #[trigger] head@.refs()[k]) by {}
            if heads0.contains_key(s) {
                lemma_apply_fold_valid(memos, heads0[s], head@.refs(), false);
            }
        }
        let res = self.stash.apply_head(&self.slab, head);
        proof {
            let (h1, applied) = applied_head(memos, heads0, head@).unwrap();
            assert(head_valid(memos, h1));
            if applied {
                let hs1 = heads0.insert(s, h1);
                lemma_prune_links_sub(memos, hs1, edge_links_spec(memos, h1));
                assert forall|u: SubjectId| #[trigger] self.stash.heads().contains_key(u) implies head_valid(memos, self.stash.heads()[u]) by {
                    assert(hs1.contains_key(u));
                }
                let after = self.stash.heads();
                assert forall|u: SubjectId, x: MemoRef|
                    #![trigger heads0[u].refs().contains(x), after[u]]
                    after.contains_key(u) && heads0.contains_key(u) && heads0[u].refs().contains(x) implies covers(memos, after[u].refs(), x) by {
                    lemma_prune_removes_only_covered(memos, hs1, edge_links_spec(memos, h1), u);
                    if u == s {
                        lemma_apply_fold_accounts(memos, heads0[s], head@.refs(), false, x);
                    } else {
                        assert(after[u] == heads0[u]);
                    }
                }
                assert forall|u: SubjectId| #[trigger] after.contains_key(u) implies heads0.insert(s, h1).contains_key(u) by {
                    lemma_prune_removes_only_covered(memos, hs1, edge_links_spec(memos, h1), u);
                }
            }
        }
        match res {
            Ok(h) => Ok(h),
            Err(e) => Err(Error::WriteError(e)),
        }
    }

    /// The resident head of subject `s`, or the null head.
    pub fn get_resident_subject_head(&self, s: SubjectId) -> (r: MemoRefHead)
        requires
            self.wf(),
        ensures
            self.heads().contains_key(s) ==> r@ == self.heads()[s],
            !self.heads().contains_key(s) ==> r@ is Null,
    {
        match self.stash.get_head(s) {
            Some(h) => h,
            None => MemoRefHead::Null,
        }
    }

    /// The ids of the memos of the resident head of subject `s` (none when it has none).
    pub fn get_resident_subject_head_memo_ids(&self, s: SubjectId) -> (r: Vec<MemoId>)
        requires
            self.wf(),
        ensures
            self.heads().contains_key(s) ==> r@ == self.heads()[s].refs().map_values(|m: MemoRef| m.memo_id),
            !self.heads().contains_key(s) ==> r@ == Seq::<MemoId>::empty(),
    {
        let h = self.get_resident_subject_head(s);
        let r = h.memo_ids();
        proof {
            if !self.heads().contains_key(s) {
                assert(r@ =~= Seq::<MemoId>::empty());
            }
        }
        r
    }

    /// The context's resident head for the subject of head `h`, if any.
    pub open spec fn resident_head_of(&self, h: HeadView) -> Option<HeadView> {
        match h.subject() {
            Some(s) => if self.heads().contains_key(s) {
                Some(self.heads()[s])
            } else {
                None
            },
            None => None,
        }
    }

    /// The head through which a subject reached by `head` is read: `head`
    /// with the context's resident head for that subject applied to it, so
    /// that the reading takes into account everything the context holds for
    /// the subject. An anonymous head is read as it is; an empty head is
    /// refused.
    pub fn contextualize_head(&self, head: &MemoRefHead) -> (r: Result<MemoRefHead, Error>)
        requires
            self.wf(),
            head_valid(self.slab.memos(), head@),
        ensures
            head@.refs().len() == 0 ==> r matches Err(Error::RetrieveError(RetrieveError::InvalidHead(InvalidHead::Empty))),
            head@.refs().len() > 0 ==> r is Ok,
            r matches Ok(h) ==> {
                &&& self.resident_head_of(head@) matches Some(rh) ==> h@ == apply_fold(
                    self.slab.memos(),
                    head@,
                    rh.refs(),
                    false,
                ).0
                &&& self.resident_head_of(head@) is None ==> h@ == head@
                &&& head_valid(self.slab.memos(), h@)
                &&& forall|x: MemoRef| covers(self.slab.memos(), head@.refs(), x) ==> covers(self.slab.memos(), h@.refs(), x)
                &&& self.resident_head_of(head@) matches Some(rh) ==> forall|x: MemoRef|
                    #[trigger] rh.refs().contains(x) ==> covers(self.slab.memos(), h@.refs(), x)
            },
    {
        if head.is_empty() {
            return Err(Error::RetrieveError(RetrieveError::InvalidHead(InvalidHead::Empty)));
        }
        let mut h = head.clone_head();
        match head.subject_id() {
            Some(s) => {
                match self.stash.get_head(s) {
                    Some(resident) => {
                        let ghost memos = self.slab.memos();
                        proof {
                            assert(head_valid(memos, resident@));
                            assert forall|k: int| 0 <= k < resident@.refs().len() implies crate::slab::ref_valid(
                                memos,
                                #[trigger] resident@.refs()[k],
                            ) by {}
                            lemma_apply_fold_valid(memos, head@, resident@.refs(), false);
                        }
                        let res = h.apply(&resident, &self.slab);
                        proof {
                            assert forall|x: MemoRef| covers(memos, head@.refs(), x) implies covers(memos, h@.refs(), x) by {
                                lemma_apply_fold_accounts(memos, head@, resident@.refs(), false, x);
                            }
                            assert forall|x: MemoRef| #[trigger] resident@.refs().contains(x) implies covers(memos, h@.refs(), x) by {
                                lemma_apply_fold_accounts(memos, head@, resident@.refs(), false, x);
                            }
                        }
                        match res {
                            Ok(_) => {},
                            Err(e) => {
                                return Err(Error::WriteError(e));
                            },
                        }
                    },
                    None => {},
                }
            },
            None => {},
        }
        Ok(h)
    }

    /// The short texts of the stash's resident heads, in subject order, as in `I4>I3`.
    pub fn concise_contents(&self) -> (r: Vec<String>)
        requires
            self.wf(),
        ensures
            r@.map_values(|t: String| t@) == self.concise(),
    {
        self.stash.concise_contents()
    }

    /// Stores a fully materialized memo without parents for an index node,
    /// whose edges point to the subject heads among `relations` (the edge of
    /// slot `i` to `relations[i]`), and applies its head to the context.
    pub fn add_test_subject(&mut self, subject_id: SubjectId, relations: Vec<MemoRefHead>) -> (r: MemoRefHead)
        requires
            old(self).wf(),
            old(self).slab.memos().len() < u64::MAX,
            subject_id.stype == SubjectType::IndexNode,
            forall|i: int| 0 <= i < relations@.len() ==> head_valid(old(self).slab.memos(), #[trigger] relations@[i]@),
        ensures
            final(self).wf(),
            final(self).slab.memos().len() == old(self).slab.memos().len() + 1,
            memos_extend(old(self).slab.memos(), final(self).slab.memos()),
            final(self).slab.memos().last().id == old(self).slab.memos().len(),
            final(self).slab.memos().last().subject_id == subject_id,
            final(self).slab.memos().last().parents == HeadView::Null,
            final(self).slab.memos().last().body matches BodyView::FullyMaterialized(v, rs, es, t) && {
                &&& v == Seq::<(Seq<char>, Seq<char>)>::empty()
                &&& rs == Seq::<(RelationSlotId, Option<SubjectId>)>::empty()
                &&& t == subject_id.stype
                &&& forall|slot: RelationSlotId| #[trigger] lookup(es, slot) == test_edge(
                    relations@.map_values(|h: MemoRefHead| h@),
                    relations@.len() as int,
                    slot,
                )
            },
            ({
                let m = MemoRef { memo_id: old(self).slab.memos().len() as MemoId, subject_id };
                applied_head(final(self).slab.memos(), old(self).heads(), m.spec_to_head()) matches Some((h1, applied))
                    && r@ == h1 && (applied ==> final(self).heads() == prune_links(
                    final(self).slab.memos(),
                    old(self).heads().insert(subject_id, h1),
                    edge_links_spec(final(self).slab.memos(), h1),
                )) && (!applied ==> final(self).heads() == old(self).heads())
            }),
    {
        let ghost memos0 = self.slab.memos();
        let ghost rels = relations@.map_values(|h: MemoRefHead| h@);
        let mut edges = EdgeSet::empty();
        let n = relations.len();
        let mut i: usize = 0;
        while i < n
            invariant
                n == relations@.len(),
                i <= n,
                rels == relations@.map_values(|h: MemoRefHead| h@),
                forall|j: int| 0 <= j < relations@.len() ==> head_valid(memos0, #[trigger] relations@[j]@),
                forall|slot: RelationSlotId| #[trigger] lookup(edges@, slot) == test_edge(rels, i as int, slot),
                forall|j: int| 0 <= j < edges@.len() ==> head_valid(memos0, #[trigger] edges@[j].1),
            decreases n - i,
        {
            let slot = #[verifier::truncate] (i as RelationSlotId);
            match &relations[i] {
                MemoRefHead::Subject { .. } => {
                    let ghost before = edges@;
                    let h = relations[i].clone_head();
                    edges.insert(slot, h);
                    proof {
                        assert(rels[i as int] == relations@[i as int]@);
                        assert forall|sl: RelationSlotId| #[trigger] lookup(edges@, sl) == test_edge(rels, i + 1, sl) by {}
                        assert forall|j: int| 0 <= j < edges@.len() implies head_valid(memos0, #[trigger] edges@[j].1) by {
                            if j < before.len() && edges@[j] == before[j] {
                            } else {
                                assert(head_valid(memos0, relations@[i as int]@));
                            }
                        }
                    }
                },
                _ => {
                    proof {
                        assert(rels[i as int] == relations@[i as int]@);
                        assert forall|sl: RelationSlotId| #[trigger] lookup(edges@, sl) == test_edge(rels, i + 1, sl) by {}
                    }
                },
            }
            i = i + 1;
        }
        let body = MemoBody::FullyMaterialized {
            v: ValueSet(Vec::new()),
            r: RelationSet(Vec::new()),
            e: edges,
            t: subject_id.stype,
        };
        proof {
            assert(body@ matches BodyView::FullyMaterialized(v, rs, es, t) && v =~= Seq::<(Seq<char>, Seq<char>)>::empty()
                && rs =~= Seq::<(RelationSlotId, Option<SubjectId>)>::empty());
        }
        let memoref = self.slab.new_memo_basic_noparent(subject_id, body);
        let head = memoref.to_head();
        proof {
            let memos1 = self.slab.memos();
            assert(memos_extend(memos0, memos1));
            assert forall|u: SubjectId| #[trigger] self.stash.heads().contains_key(u) implies head_valid(memos1, self.stash.heads()[u]) by {
                lemma_head_below_extend(memos0, memos1, self.stash.heads()[u], memos1.len() as int);
                assert forall|k: int| 0 <= k < self.stash.heads()[u].refs().len() implies #[trigger] self.stash.heads()[u].refs()[k].memo_id < memos1.len() as int by {
                    assert(self.stash.heads()[u].refs()[k].memo_id < memos0.len());
                }
            }
            assert(head@.refs() =~= seq![memoref]);
        }
        let res = self.apply_head(&head);
        match res {
            Ok(h) => h,
            Err(_) => head,
        }
    }

    /// Compacts the context: for each resident head, the edges whose
    /// subject's resident head descends or contains the edge are rewritten,
    /// in a new edge memo of the head's subject, to that resident head; the
    /// resident heads that the new edges then cover are pruned from the stash.
    /// Memos are written exactly when some edge can be brought up to date;
    /// otherwise nothing changes.
    pub fn compact(&mut self) -> (r: Result<(), Error>)
        requires
            old(self).wf(),
            old(self).slab.memos().len() + old(self).heads().dom().len() < u64::MAX,
        ensures
            final(self).wf(),
            memos_extend(old(self).slab.memos(), final(self).slab.memos()),
            final(self).heads().dom().subset_of(old(self).heads().dom()),
            heads_advance(final(self).slab.memos(), old(self).heads(), final(self).heads()),
            final(self).slab.memos().len() > old(self).slab.memos().len() <==> compaction_due(
                old(self).slab.memos(),
                old(self).heads(),
            ),
            !compaction_due(old(self).slab.memos(), old(self).heads()) ==> final(self).heads() == old(self).heads(),
            forall|i: int|
                old(self).slab.memos().len() <= i < final(self).slab.memos().len() ==> #[trigger] edge_memo_pruned(
                    final(self).slab.memos(),
                    final(self).heads(),
                    i,
                ),
            forall|u: SubjectId|
                #[trigger] old(self).heads().contains_key(u) && !final(self).heads().contains_key(u) ==> dropped_by_edge(
                    final(self).slab.memos(),
                    old(self).slab.memos().len() as int,
                    final(self).slab.memos().len() as int,
                    u,
                    old(self).heads()[u],
                ),
            r is Ok,
    {
        let ghost dom0 = self.heads().dom();
        proof {
            let h0 = self.heads();
            assert forall|u: SubjectId, x: MemoRef|
                #![trigger h0[u].refs().contains(x), h0[u]]
                h0.contains_key(u) && h0.contains_key(u) && h0[u].refs().contains(x) implies covers(self.slab.memos(), h0[u].refs(), x) by {}
        }
        proof {
            self.stash.lemma_heads_finite();
            assert(dom0.difference(Seq::<SubjectId>::empty().to_set()) =~= dom0);
        }
        let mut iter = self.stash.iter();
        loop
            invariant
                self.wf(),
                memos_extend(old(self).slab.memos(), self.slab.memos()),
                self.heads().dom().subset_of(dom0),
                dom0 == old(self).heads().dom(),
                dom0.finite(),
                self.slab.memos().len() + self.heads().dom().difference(iter@.to_set()).len() < u64::MAX,
                heads_advance(self.slab.memos(), old(self).heads(), self.heads()),
                self.slab.memos().len() == old(self).slab.memos().len() ==> self.heads() == old(self).heads(),
                self.slab.memos().len() == old(self).slab.memos().len() ==> forall|v: SubjectId|
                    #[trigger] iter@.contains(v) ==> !subject_compactable(old(self).slab.memos(), old(self).heads(), v),
                !compaction_due(old(self).slab.memos(), old(self).heads()) ==> self.slab.memos().len() == old(
                    self,
                ).slab.memos().len(),
                forall|i: int|
                    old(self).slab.memos().len() <= i < self.slab.memos().len() ==> #[trigger] edge_memo_pruned(
                        self.slab.memos(),
                        self.heads(),
                        i,
                    ),
                forall|u: SubjectId|
                    #[trigger] old(self).heads().contains_key(u) && !self.heads().contains_key(u) ==> dropped_by_edge(
                        self.slab.memos(),
                        old(self).slab.memos().len() as int,
                        self.slab.memos().len() as int,
                        u,
                        old(self).heads()[u],
                    ),
            decreases self.heads().dom().difference(iter@.to_set()).len(),
        {
            let ghost dom_before = self.heads().dom();
            let ghost vis_before = iter@;
            let ghost memos0 = self.slab.memos();
            proof {
                vstd::set_lib::lemma_set_subset_finite(dom0, dom_before);
                vstd::set_lib::lemma_set_subset_finite(dom_before, dom_before.difference(vis_before.to_set()));
            }
            match iter.next(&self.stash) {
                None => {
                    proof {
                        if compaction_due(old(self).slab.memos(), old(self).heads())
                            && self.slab.memos().len() == old(self).slab.memos().len() {
                            let p = choose|p: SubjectId| #[trigger] subject_compactable(old(self).slab.memos(), old(self).heads(), p);
                            assert(self.stash.heads().contains_key(p));
                            assert(iter@.contains(p));
                        }
                    }
                    return Ok(());
                },
                Some(parent) => {
                    let ghost s = parent@.subject().unwrap();
                    proof {
                        self.stash.lemma_heads_shape();
                        assert(dom_before.difference(vis_before.to_set()).contains(s));
                    }
                    let edges = parent.project_occupied_edges(&self.slab);
                    let mut updated = EdgeSet::empty();
                    let mut k: usize = 0;
                    while k < edges.len()
                        invariant
                            self.wf(),
                            memos0 == self.slab.memos(),
                            k <= edges@.len(),
                            forall|j: int| 0 <= j < updated@.len() ==> head_valid(memos0, #[trigger] updated@[j].1),
                            forall|j: int| 0 <= j < updated@.len() ==> held_as(self.heads(), #[trigger] updated@[j].1),
                            updated@.len() > 0 <==> exists|j: int|
                                0 <= j < k && #[trigger] link_stale(memos0, self.heads(), edges@[j]@),
                        decreases edges@.len() - k,
                    {
                        let ghost stale_before = exists|j: int|
                            0 <= j < k && #[trigger] link_stale(memos0, self.heads(), edges@[j]@);
                        match &edges[k] {
                            EdgeLink::Occupied { slot_id, head: edge } => {
                                match edge.subject_id() {
                                    Some(sid) => {
                                        match self.stash.get_head(sid) {
                                            Some(stash_mrh) => {
                                                proof {
                                                    assert(head_valid(memos0, self.stash.heads()[sid]));
                                                    assert forall|q: int| 0 <= q < stash_mrh@.refs().len() implies (#[trigger] stash_mrh@.refs()[q]).memo_id < memos0.len() by {}
                                                    lemma_descends_or_contains_found(memos0, stash_mrh@, edge@);
                                                }
                                                match stash_mrh.descends_or_contains(edge, &self.slab) {
                                                    Ok(d) => {
                                                        if d {
                                                            let ghost before = updated@;
                                                            let ghost sv = stash_mrh@;
                                                            updated.insert(*slot_id, stash_mrh);
                                                            proof {
                                                                self.stash.lemma_heads_shape();
                                                                assert(held_as(self.heads(), sv));
                                                                assert forall|j: int| 0 <= j < updated@.len() implies head_valid(memos0, #[trigger] updated@[j].1)
                                                                    && held_as(self.heads(), updated@[j].1) by {
                                                                    if j < before.len() && updated@[j] == before[j] {
                                                                    } else {
                                                                        assert(updated@[j].1 == sv);
                                                                    }
                                                                }
                                                            }
                                                        }
                                                    },
                                                    Err(e) => {
                                                        return Err(Error::RetrieveError(e));
                                                    },
                                                }
                                            },
                                            None => {},
                                        }
                                    },
                                    None => {},
                                }
                            },
                            EdgeLink::Vacant { .. } => {},
                        }
                        proof {
                            assert(updated@.len() > 0 <==> (stale_before || link_stale(memos0, self.heads(), edges@[k as int]@)));
                            if stale_before {
                                let j = choose|j: int| 0 <= j < k && #[trigger] link_stale(memos0, self.heads(), edges@[j]@);
                                assert(0 <= j < k + 1 && link_stale(memos0, self.heads(), edges@[j]@));
                            }
                            if link_stale(memos0, self.heads(), edges@[k as int]@) {
                                assert(0 <= k < k + 1);
                            }
                        }
                        k = k + 1;
                    }
                    proof {
                        let all = head_edge_links(memos0, parent@);
                        let occ = occupied_links(all);
                        assert(all =~= Seq::new(
                            SUBJECT_MAX_RELATIONS as nat,
                            |q: int| link_of(q as RelationSlotId, project_edge_in(memos0, causal_seq(memos0, parent@.refs()), q as RelationSlotId)),
                        ));
                        assert(edges@.map_values(|l: EdgeLink| l@) == occ);
                        assert(self.heads()[s] == parent@);
                        if updated@.len() > 0 {
                            let j = choose|j: int| 0 <= j < edges@.len() && #[trigger] link_stale(memos0, self.heads(), edges@[j]@);
                            let l = edges@[j]@;
                            assert(occ[j] == l);
                            assert(occ.contains(l));
                            lemma_occupied_links_contains(all, l);
                            assert(subject_compactable(memos0, self.heads(), s));
                        }
                        if subject_compactable(memos0, self.heads(), s) {
                            let l = choose|l: LinkView| all.contains(l) && #[trigger] link_stale(memos0, self.heads(), l);
                            lemma_occupied_links_contains(all, l);
                            let j = choose|j: int| 0 <= j < occ.len() && occ[j] == l;
                            assert(edges@[j]@ == l);
                        }
                        assert(updated@.len() > 0 <==> subject_compactable(memos0, self.heads(), s));
                        if self.slab.memos().len() == old(self).slab.memos().len() {
                            assert(memos0 =~= old(self).slab.memos());
                        }
                    }
                    let ghost heads_visit = self.heads();
                    let ghost nonempty = updated@.len() > 0;
                    if updated.len() > 0 {
                        let subject_id = match parent.subject_id() {
                            Some(x) => x,
                            None => {
                                return Ok(());
                            },
                        };
                        proof {
                            assert(head_valid(memos0, parent@));
                            assert(dom_before.difference(vis_before.to_set()).len() >= 1) by {
                                vstd::set_lib::lemma_len_subset(set![s], dom_before.difference(vis_before.to_set()));
                            }
                        }
                        let memoref = self.slab.new_memo_basic(subject_id, parent, MemoBody::Edge(updated));
                        let head = memoref.to_head();
                        proof {
                            let memos1 = self.slab.memos();
                            assert forall|u: SubjectId| #[trigger] self.stash.heads().contains_key(u) implies head_valid(memos1, self.stash.heads()[u]) by {
                                lemma_head_below_extend(memos0, memos1, self.stash.heads()[u], memos1.len() as int);
                                assert forall|q: int| 0 <= q < self.stash.heads()[u].refs().len() implies #[trigger] self.stash.heads()[u].refs()[q].memo_id < memos1.len() as int by {
                                    assert(self.stash.heads()[u].refs()[q].memo_id < memos0.len());
                                }
                            }
                            assert(head@.refs() =~= seq![memoref]);
                        }
                        let ghost heads_mid = self.heads();
                        let ghost memos1 = self.slab.memos();
                        let ghost es = updated@;
                        proof {
                            lemma_heads_advance_extend(memos0, memos1, old(self).heads(), heads_mid);
                            assert(heads_mid == heads_visit);
                            assert(subject_id == s);
                            lemma_head_below_extend(memos0, memos1, parent@, memos1.len() as int);
                            assert forall|q: int| 0 <= q < parent@.refs().len() implies #[trigger] parent@.refs()[q].memo_id < memos1.len() as int by {
                                assert(parent@.refs()[q].memo_id < memos0.len());
                            }
                            assert(memos1[memoref.memo_id as int].parents == parent@);
                            lemma_apply_child(memos1, parent@, memoref);
                            assert(head@.subject() == Some(subject_id));
                            assert(applied_head(memos1, heads_mid, head@) == Some((parent@.with_refs(seq![memoref]), true)));
                        }
                        let res = self.apply_head(&head);
                        proof {
                            let (h1, applied) = applied_head(memos1, heads_mid, head@).unwrap();
                            if applied {
                                lemma_prune_links_sub(memos1, heads_mid.insert(subject_id, h1), edge_links_spec(memos1, h1));
                            }
                            assert(self.heads().dom().subset_of(dom_before));
                            lemma_heads_advance_trans(memos1, old(self).heads(), heads_mid, self.heads());
                            let links = edge_links_spec(memos1, h1);
                            let heads2 = heads_mid.insert(subject_id, h1);
                            assert(h1.refs() =~= memoref.spec_to_head().refs());
                            assert(memos1[memos0.len() as int].body == BodyView::Edge(es));
                            assert forall|p: RelationSlotId| #![trigger lookup(es, p)] match lookup(es, p) {
                                Some(c) => match c.subject() {
                                    Some(t) => c.refs().len() == 1 && t != subject_id ==> !self.heads().contains_key(t),
                                    None => true,
                                },
                                None => true,
                            } by {
                                match lookup(es, p) {
                                    Some(c) => {
                                        match c.subject() {
                                            Some(t) => {
                                                if c.refs().len() == 1 && t != subject_id {
                                                    lemma_lookup_found(es, p);
                                                    let j = choose|j: int| 0 <= j < es.len() && #[trigger] es[j] == (p, c);
                                                    assert(held_as(heads_mid, es[j].1));
                                                    lemma_edge_readback(memos0, subject_id, parent@, BodyView::Edge(es), p);
                                                    assert(links[p as int] == link_of(p, project_edge_in(memos1, causal_seq(memos1, h1.refs()), p)));
                                                    assert(c is Subject);
                                                    assert(links[p as int] == LinkView::Occupied(p, c));
                                                    lemma_single_contains_itself(memos1, c);
                                                    lemma_prune_links_removes(memos1, heads2, links, p as int, c, t);
                                                }
                                            },
                                            None => {},
                                        }
                                    },
                                    None => {},
                                }
                            }
                            assert(edge_memo_pruned(memos1, self.heads(), memos0.len() as int));
                            assert forall|i: int| old(self).slab.memos().len() <= i < memos1.len() implies #[trigger] edge_memo_pruned(
                                memos1,
                                self.heads(),
                                i,
                            ) by {
                                if i < memos0.len() {
                                    assert(edge_memo_pruned(memos0, heads_mid, i));
                                    assert(memos1[i] == memos0[i]);
                                }
                            }
                            let n0 = memos0.len() as int;
                            let mh = memo_head(memos1, n0);
                            assert(mh.refs() =~= h1.refs());
                            assert(memos1.take(n0 + 1) =~= memos1);
                            assert(edge_links_spec(memos1, mh) =~= edge_links_spec(memos1, h1));
                            assert forall|u: SubjectId|
                                #[trigger] old(self).heads().contains_key(u) && !self.heads().contains_key(u) implies dropped_by_edge(
                                memos1,
                                old(self).slab.memos().len() as int,
                                memos1.len() as int,
                                u,
                                old(self).heads()[u],
                            ) by {
                                let h0 = old(self).heads()[u];
                                if heads_mid.contains_key(u) {
                                    assert(heads2.contains_key(u));
                                    lemma_prune_removes_only_covered(memos1, heads2, links, u);
                                    let k = choose|k: int|
                                        0 <= k < links.len() && (#[trigger] links[k] matches LinkView::Occupied(_, c) && c.subject() == Some(u)
                                            && spec_descends_or_contains(memos1, c, heads2[u]) == Some(true));
                                    let c = links[k]->Occupied_1;
                                    lemma_doc_covers(memos1, c, heads2[u]);
                                    assert forall|x: MemoRef| #[trigger] h0.refs().contains(x) implies covers(memos1, c.refs(), x) by {
                                        assert(covers(memos1, heads_mid[u].refs(), x));
                                        if u == subject_id {
                                            assert forall|y: MemoRef| #[trigger] heads_mid[u].refs().contains(y) implies covers(memos1, h1.refs(), y) by {
                                                let ps = memos1[memoref.memo_id as int].parents.refs();
                                                let q = choose|q: int| 0 <= q < ps.len() && ps[q] == y;
                                                assert(descends(memos1, memoref.memo_id, y));
                                                assert(h1.refs()[0] == memoref);
                                            }
                                            lemma_covers_trans(memos1, heads_mid[u].refs(), h1.refs(), x);
                                            assert(heads2[u] == h1);
                                        }
                                        lemma_covers_trans(memos1, heads2[u].refs(), c.refs(), x);
                                    }
                                    assert(edge_covers(memos1, n0, k, u, h0));
                                } else {
                                    let (i, p) = choose|i: int, p: int|
                                        old(self).slab.memos().len() <= i < memos0.len() && 0 <= p < STASH_RELATION_SLOTS
                                            && #[trigger] edge_covers(memos0, i, p, u, h0);
                                    assert(memos1.take(i + 1) =~= memos0.take(i + 1));
                                    assert(memos1[i] == memos0[i]);
                                    assert(edge_covers(memos1, i, p, u, h0));
                                }
                            }
                        }
                        match res {
                            Ok(_) => {},
                            Err(e) => {
                                return Err(e);
                            },
                        }
                    }
                    proof {
                        let d1 = self.heads().dom();
                        let v1 = iter@.to_set();
                        assert(iter@ == vis_before.push(s));
                        assert forall|x: SubjectId| v1.contains(x) <==> vis_before.to_set().insert(s).contains(x) by {
                            if vis_before.contains(x) {
                                let i = choose|i: int| 0 <= i < vis_before.len() && vis_before[i] == x;
                                assert(iter@[i] == x);
                            }
                            if iter@.contains(x) {
                                let i = choose|i: int| 0 <= i < iter@.len() && iter@[i] == x;
                                if i < vis_before.len() {
                                    assert(vis_before[i] == x);
                                }
                            }
                            if x == s {
                                assert(iter@[vis_before.len() as int] == s);
                            }
                        }
                        assert(v1 =~= vis_before.to_set().insert(s));
                        assert(d1.subset_of(dom_before));
                        assert(d1.difference(v1).subset_of(dom_before.difference(vis_before.to_set()).remove(s)));
                        vstd::set_lib::lemma_len_subset(d1.difference(v1), dom_before.difference(vis_before.to_set()).remove(s));
                    }
                    proof {
                        if self.slab.memos().len() == old(self).slab.memos().len() {
                            assert(!nonempty);
                            assert(memos0.len() == old(self).slab.memos().len());
                            assert(memos0 =~= old(self).slab.memos());
                            assert(heads_visit == old(self).heads());
                            assert forall|v: SubjectId| #[trigger] iter@.contains(v) implies !subject_compactable(
                                old(self).slab.memos(),
                                old(self).heads(),
                                v,
                            ) by {
                                if v != s {
                                    let i = choose|i: int| 0 <= i < iter@.len() && iter@[i] == v;
                                    assert(i < vis_before.len());
                                    assert(vis_before[i] == v);
                                    assert(vis_before.contains(v));
                                }
                            }
                        }
                    }
                },
            }
        }
    }
}

} // verus!
