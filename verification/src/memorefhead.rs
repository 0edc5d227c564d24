use vstd::prelude::*;

use crate::error::{RetrieveError, WriteError};
use crate::slab::{descends, head_valid, lemma_descends_extend, lemma_descends_older, lemma_descends_transitive, memos_extend, memos_wf, ref_valid, BodyView, MemoBody, MemoId, MemoRef, MemoView, Slab, SubjectId, SubjectType};

verus! {

/// The "head" of a causal chain: the youngest memos of a subject (or of an
/// anonymous chain), much like a git HEAD.
#[derive(Debug)]
pub enum MemoRefHead {
    Null,
    Subject { subject_id: SubjectId, head: Vec<MemoRef> },
    Anonymous { head: Vec<MemoRef> },
}

/// The mathematical value of a `MemoRefHead`.
pub enum HeadView {
    Null,
    Subject(SubjectId, Seq<MemoRef>),
    Anonymous(Seq<MemoRef>),
}

impl HeadView {
    /// The memorefs of the head, in order.
    pub open spec fn refs(self) -> Seq<MemoRef> {
        match self {
            HeadView::Null => Seq::empty(),
            HeadView::Subject(_, h) => h,
            HeadView::Anonymous(h) => h,
        }
    }

    /// The subject of the head, if it is the head of a subject.
    pub open spec fn subject(self) -> Option<SubjectId> {
        match self {
            HeadView::Subject(s, _) => Some(s),
            _ => None,
        }
    }

    /// The same kind of head (and subject) with other memorefs.
    pub open spec fn with_refs(self, refs: Seq<MemoRef>) -> HeadView {
        match self {
            HeadView::Null => HeadView::Null,
            HeadView::Subject(s, _) => HeadView::Subject(s, refs),
            HeadView::Anonymous(_) => HeadView::Anonymous(refs),
        }
    }
}

impl View for MemoRefHead {
    type V = HeadView;

    open spec fn view(&self) -> HeadView {
        match self {
            MemoRefHead::Null => HeadView::Null,
            MemoRefHead::Subject { subject_id, head } => HeadView::Subject(*subject_id, head@),
            MemoRefHead::Anonymous { head } => HeadView::Anonymous(head@),
        }
    }
}

impl MemoRefHead {
    /// The number of memorefs in the head.
    pub fn len(&self) -> (r: usize)
        ensures
            r == self@.refs().len(),
    {
        match self {
            MemoRefHead::Null => 0,
            MemoRefHead::Subject { head, .. } => head.len(),
            MemoRefHead::Anonymous { head } => head.len(),
        }
    }

    /// The memoref at position `i`.
    pub fn ref_at(&self, i: usize) -> (r: MemoRef)
        requires
            i < self@.refs().len(),
        ensures
            r == self@.refs()[i as int],
    {
        match self {
            MemoRefHead::Null => { proof { assert(false); } MemoRef { memo_id: 0, subject_id: SubjectId::anonymous() } },
            MemoRefHead::Subject { head, .. } => head[i],
            MemoRefHead::Anonymous { head } => head[i],
        }
    }

    /// A copy of this head.
    pub fn clone_head(&self) -> (r: MemoRefHead)
        ensures
            r@ == self@,
    {
        match self {
            MemoRefHead::Null => MemoRefHead::Null,
            MemoRefHead::Subject { subject_id, head } => {
                let h = head.clone();
                proof { assert(h@ =~= head@); }
                MemoRefHead::Subject { subject_id: *subject_id, head: h }
            },
            MemoRefHead::Anonymous { head } => {
                let h = head.clone();
                proof { assert(h@ =~= head@); }
                MemoRefHead::Anonymous { head: h }
            },
        }
    }
}


/// Every memoref of `s` names a memo that the slab holds.
pub open spec fn ids_found(memos: Seq<MemoView>, s: Seq<MemoRef>) -> bool {
    forall|k: int| 0 <= k < s.len() ==> (#[trigger] s[k]).memo_id < memos.len()
}

/// How a scan of the head for a new memoref ended.
pub enum ScanEnd {
    /// The head already held the memoref.
    Found,
    /// The scan finished (or stopped at a memoref that descends the new one).
    Done { new_descends: bool, new_is_descended: bool },
}

/// The scan of `apply_memoref` over positions `i - 1` down to `0` of `v`:
/// a memoref that the new one descends is replaced by the new one (the first
/// such, from the end) or removed (the others); the scan stops at a
/// memoref that descends the new one, and at the new memoref itself.
pub open spec fn apply_scan(
    memos: Seq<MemoView>,
    v: Seq<MemoRef>,
    new: MemoRef,
    i: nat,
    replaced: bool,
    new_descends: bool,
) -> (Seq<MemoRef>, ScanEnd)
    decreases i,
{
    if i == 0 || i > v.len() {
        (v, ScanEnd::Done { new_descends, new_is_descended: false })
    } else {
        let j = (i - 1) as nat;
        let e = v[j as int];
        if e == new {
            (v, ScanEnd::Found)
        } else if descends(memos, e.memo_id, new) {
            (v, ScanEnd::Done { new_descends, new_is_descended: true })
        } else if descends(memos, new.memo_id, e) {
            if replaced {
                apply_scan(memos, v.remove(j as int), new, j, true, true)
            } else {
                apply_scan(memos, v.update(j as int, new), new, j, true, true)
            }
        } else {
            apply_scan(memos, v, new, j, replaced, new_descends)
        }
    }
}

/// The memorefs of a non-null head after applying `new`, and whether `new` was applied:
/// a memoref concurrent with all of the head is appended.
pub open spec fn applied_refs(memos: Seq<MemoView>, v: Seq<MemoRef>, new: MemoRef) -> (
    Seq<MemoRef>,
    bool,
) {
    let (w, end) = apply_scan(memos, v, new, v.len(), false, false);
    match end {
        ScanEnd::Found => (w, false),
        ScanEnd::Done { new_descends, new_is_descended } => {
            if !new_descends && !new_is_descended {
                (w.push(new), true)
            } else {
                (w, new_descends)
            }
        },
    }
}

/// A memoref can be applied to the head without a retrieval error: the head
/// is null, or the slab holds `new` and every memo of the head.
pub open spec fn apply_ok(memos: Seq<MemoView>, h: HeadView, new: MemoRef) -> bool {
    h is Null || (new.memo_id < memos.len() && ids_found(memos, h.refs()))
}

/// The head after applying `new` to `h`, and whether it was applied (`None`:
/// a memo could not be retrieved, and the head is unchanged).
pub open spec fn spec_apply_memoref(memos: Seq<MemoView>, h: HeadView, new: MemoRef) -> (
    HeadView,
    Option<bool>,
) {
    if !apply_ok(memos, h, new) {
        (h, None)
    } else {
        match h {
            HeadView::Null => (new.spec_to_head(), Some(true)),
            _ => {
                let (w, b) = applied_refs(memos, h.refs(), new);
                (h.with_refs(w), Some(b))
            },
        }
    }
}

/// Applying the memorefs `news` in order to `h`, with `acc` telling whether
/// an earlier one was applied: the final head, and whether any was applied
/// (`None`: a retrieval failed, and the head is the one at that point).
pub open spec fn apply_fold(memos: Seq<MemoView>, h: HeadView, news: Seq<MemoRef>, acc: bool) -> (
    HeadView,
    Option<bool>,
)
    decreases news.len(),
{
    if news.len() == 0 {
        (h, Some(acc))
    } else {
        let (h1, r1) = spec_apply_memoref(memos, h, news[0]);
        match r1 {
            None => (h1, None),
            Some(b) => apply_fold(memos, h1, news.drop_first(), acc || b),
        }
    }
}

/// One row of `descends_or_contains`: memoref `m` equals or descends every
/// memoref of `os` (`None`: `m` had to be retrieved and was not found).
pub open spec fn doc_row(memos: Seq<MemoView>, m: MemoRef, os: Seq<MemoRef>) -> Option<bool> {
    if forall|k: int| 0 <= k < os.len() ==> #[trigger] os[k] == m {
        Some(true)
    } else if m.memo_id >= memos.len() {
        None
    } else {
        Some(forall|k: int| 0 <= k < os.len() ==> #[trigger] os[k] == m || descends(memos, m.memo_id, os[k]))
    }
}

/// The rows of `descends_or_contains`, in order: the first failing row decides.
pub open spec fn doc_rows(memos: Seq<MemoView>, hs: Seq<MemoRef>, os: Seq<MemoRef>) -> Option<bool>
    decreases hs.len(),
{
    if hs.len() == 0 {
        Some(true)
    } else {
        match doc_row(memos, hs[0], os) {
            None => None,
            Some(false) => Some(false),
            Some(true) => doc_rows(memos, hs.drop_first(), os),
        }
    }
}

/// Whether head `h` descends or contains head `o`: both are non-empty and
/// every memoref of `h` equals or descends every memoref of `o`.
pub open spec fn spec_descends_or_contains(memos: Seq<MemoView>, h: HeadView, o: HeadView) -> Option<bool> {
    if h.refs().len() == 0 || o.refs().len() == 0 {
        Some(false)
    } else {
        doc_rows(memos, h.refs(), o.refs())
    }
}

/// Scanning positions `i - 1` down to `0` of `v`, when the new memoref
/// descends each memoref there and none of them descends it (nor is it),
/// removes all of them.
proof fn lemma_scan_descended(memos: Seq<MemoView>, v: Seq<MemoRef>, new: MemoRef, i: nat, nd: bool)
    requires
        i <= v.len(),
        forall|k: int|
            0 <= k < i ==> (#[trigger] v[k]) != new && !descends(memos, v[k].memo_id, new) && descends(
                memos,
                new.memo_id,
                v[k],
            ),
    ensures
        apply_scan(memos, v, new, i, true, nd).0 =~= v.subrange(i as int, v.len() as int),
        apply_scan(memos, v, new, i, true, nd).1 == (ScanEnd::Done { new_descends: nd || i > 0, new_is_descended: false }),
    decreases i,
{
    if i > 0 {
        let j = (i - 1) as nat;
        let w = v.remove(j as int);
        assert(v[j as int] != new);
        assert forall|k: int| 0 <= k < j implies (#[trigger] w[k]) != new && !descends(memos, w[k].memo_id, new) && descends(
            memos,
            new.memo_id,
            w[k],
        ) by {
            assert(w[k] == v[k]);
        }
        lemma_scan_descended(memos, w, new, j, true);
        assert(w.subrange(j as int, w.len() as int) =~= v.subrange(i as int, v.len() as int));
    } else {
        assert(v.subrange(0, v.len() as int) =~= v);
    }
}

/// Applying to a head the memoref of a memo whose parents are that very
/// head gives the head of that memoref alone, and counts as applied.
pub proof fn lemma_apply_child(memos: Seq<MemoView>, h: HeadView, new: MemoRef)
    requires
        memos_wf(memos),
        h is Subject,
        head_valid(memos, h),
        new.memo_id < memos.len(),
        memos[new.memo_id as int].parents == h,
    ensures
        apply_fold(memos, h, seq![new], false) == (h.with_refs(seq![new]), Some(true)),
{
    let v = h.refs();
    assert(memos[new.memo_id as int].id == new.memo_id);
    assert(crate::slab::head_below(memos, memos[new.memo_id as int].parents, new.memo_id as int));
    assert forall|k: int| 0 <= k < v.len() implies (#[trigger] v[k]) != new && !descends(memos, v[k].memo_id, new) && descends(
        memos,
        new.memo_id,
        v[k],
    ) by {
        assert(v[k].memo_id < new.memo_id);
        if descends(memos, v[k].memo_id, new) {
            lemma_descends_older(memos, v[k].memo_id, new);
        }
        assert(memos[new.memo_id as int].parents.refs()[k] == v[k]);
    }
    assert(apply_ok(memos, h, new));
    if v.len() > 0 {
        let j = (v.len() - 1) as nat;
        let w = v.update(j as int, new);
        assert forall|k: int| 0 <= k < j implies (#[trigger] w[k]) != new && !descends(memos, w[k].memo_id, new) && descends(
            memos,
            new.memo_id,
            w[k],
        ) by {
            assert(w[k] == v[k]);
        }
        lemma_scan_descended(memos, w, new, j, true);
        assert(w.subrange(j as int, w.len() as int) =~= seq![new]);
        assert(applied_refs(memos, v, new) == (seq![new], true));
    } else {
        assert(apply_scan(memos, v, new, v.len(), false, false) == (v, ScanEnd::Done { new_descends: false, new_is_descended: false }));
        assert(v.push(new) =~= seq![new]);
        assert(applied_refs(memos, v, new) == (seq![new], true));
    }
    assert(spec_apply_memoref(memos, h, new) == (h.with_refs(seq![new]), Some(true)));
    assert(seq![new].drop_first() =~= Seq::<MemoRef>::empty());
    assert(seq![new][0] == new);
    assert(apply_fold(memos, h.with_refs(seq![new]), Seq::<MemoRef>::empty(), true) == (h.with_refs(seq![new]), Some(true)));
    assert(apply_fold(memos, h, seq![new], false) == apply_fold(memos, h.with_refs(seq![new]), seq![new].drop_first(), true));
}

/// A head that descends or contains another accounts for each of its memorefs.
pub proof fn lemma_doc_covers(memos: Seq<MemoView>, c: HeadView, h: HeadView)
    requires
        spec_descends_or_contains(memos, c, h) == Some(true),
    ensures
        forall|y: MemoRef| #[trigger] h.refs().contains(y) ==> covers(memos, c.refs(), y),
{
    let cs = c.refs();
    let os = h.refs();
    assert(cs.len() > 0 && os.len() > 0);
    assert(doc_row(memos, cs[0], os) == Some(true));
    assert forall|y: MemoRef| #[trigger] os.contains(y) implies covers(memos, cs, y) by {
        let k = choose|k: int| 0 <= k < os.len() && os[k] == y;
        assert(os[k] == cs[0] || descends(memos, cs[0].memo_id, os[k]));
        if os[k] == cs[0] {
            assert(cs.contains(cs[0]));
        }
    }
}

/// A head of one memoref descends or contains itself.
pub proof fn lemma_single_contains_itself(memos: Seq<MemoView>, c: HeadView)
    requires
        c.refs().len() == 1,
    ensures
        spec_descends_or_contains(memos, c, c) == Some(true),
{
    let r = c.refs();
    assert(doc_row(memos, r[0], r) == Some(true));
    assert(r.drop_first() =~= Seq::<MemoRef>::empty());
    assert(doc_rows(memos, r.drop_first(), r) == Some(true));
}

/// No memoref of `v` descends another, and none occurs twice.
pub open spec fn antichain(memos: Seq<MemoView>, v: Seq<MemoRef>) -> bool {
    forall|i: int, j: int|
        0 <= i < v.len() && 0 <= j < v.len() && i != j ==> v[i] != v[j] && !descends(memos, (#[trigger] v[i]).memo_id, #[trigger] v[j])
}

/// The memorefs of `s` that no memoref of `s` descends.
pub open spec fn maximal(memos: Seq<MemoView>, s: Seq<MemoRef>) -> Set<MemoRef> {
    Set::new(|x: MemoRef| s.contains(x) && forall|y: MemoRef| #[trigger] s.contains(y) ==> !descends(memos, y.memo_id, x))
}

/// The memorefs of `s` that `new` does not descend.
pub open spec fn kept_by(memos: Seq<MemoView>, s: Set<MemoRef>, new: MemoRef) -> Set<MemoRef> {
    s.filter(|e: MemoRef| !descends(memos, new.memo_id, e))
}

/// Scanning positions below `i` where some memoref descends the new one and
/// the new one descends none changes nothing and stops there.
proof fn lemma_scan_stops(memos: Seq<MemoView>, w: Seq<MemoRef>, new: MemoRef, i: nat, replaced: bool, nd: bool)
    requires
        i <= w.len(),
        exists|k: int| 0 <= k < i && descends(memos, (#[trigger] w[k]).memo_id, new),
        forall|k: int| 0 <= k < i ==> (#[trigger] w[k]) != new && !descends(memos, new.memo_id, w[k]),
    ensures
        apply_scan(memos, w, new, i, replaced, nd) == (w, ScanEnd::Done { new_descends: nd, new_is_descended: true }),
    decreases i,
{
    let j = (i - 1) as nat;
    assert(w[j as int] != new);
    if !descends(memos, w[j as int].memo_id, new) {
        let k = choose|k: int| 0 <= k < i && descends(memos, (#[trigger] w[k]).memo_id, new);
        assert(k != j);
        lemma_scan_stops(memos, w, new, j, replaced, nd);
    }
}

/// Scanning positions below `i` where no memoref descends the new one (nor
/// is it) keeps those the new one does not descend, and puts the new one in
/// the place of the others unless it already took one.
proof fn lemma_scan_keeps(memos: Seq<MemoView>, w: Seq<MemoRef>, new: MemoRef, i: nat, replaced: bool, nd: bool)
    requires
        i <= w.len(),
        forall|k: int| 0 <= k < i ==> (#[trigger] w[k]) != new && !descends(memos, w[k].memo_id, new),
    ensures
        apply_scan(memos, w, new, i, replaced, nd).0.to_set() =~= kept_by(memos, w.take(i as int).to_set(), new).union(
            w.skip(i as int).to_set(),
        ).union(
            if !replaced && (exists|k: int| 0 <= k < i && descends(memos, new.memo_id, #[trigger] w[k])) {
                set![new]
            } else {
                Set::<MemoRef>::empty()
            },
        ),
        apply_scan(memos, w, new, i, replaced, nd).1 == (ScanEnd::Done {
            new_descends: nd || (exists|k: int| 0 <= k < i && descends(memos, new.memo_id, #[trigger] w[k])),
            new_is_descended: false,
        }),
    decreases i,
{
    if i == 0 {
        assert(w.take(0).to_set() =~= Set::<MemoRef>::empty());
        assert(w.skip(0) =~= w);
        assert(!(exists|k: int| 0 <= k < 0 && descends(memos, new.memo_id, #[trigger] w[k])));
    } else {
        let j = (i - 1) as nat;
        let e = w[j as int];
        assert(w.take(i as int) =~= w.take(j as int).push(e));
        assert(w.skip(j as int) =~= seq![e] + w.skip(i as int));
        assert(w.take(i as int).to_set() =~= w.take(j as int).to_set().insert(e)) by {
            assert forall|x: MemoRef| w.take(i as int).to_set().contains(x) <==> w.take(j as int).to_set().insert(e).contains(x) by {
                if w.take(i as int).contains(x) {
                    let k = choose|k: int| 0 <= k < i && w.take(i as int)[k] == x;
                    if k < j {
                        assert(w.take(j as int)[k] == x);
                    }
                }
                if w.take(j as int).contains(x) {
                    let k = choose|k: int| 0 <= k < j && w.take(j as int)[k] == x;
                    assert(w.take(i as int)[k] == x);
                }
                if x == e {
                    assert(w.take(i as int)[j as int] == x);
                }
            }
        }
        assert(w.skip(j as int).to_set() =~= w.skip(i as int).to_set().insert(e)) by {
            assert forall|x: MemoRef| w.skip(j as int).to_set().contains(x) <==> w.skip(i as int).to_set().insert(e).contains(x) by {
                if w.skip(j as int).contains(x) {
                    let k = choose|k: int| 0 <= k < w.skip(j as int).len() && w.skip(j as int)[k] == x;
                    if k > 0 {
                        assert(w.skip(i as int)[k - 1] == x);
                    }
                }
                if w.skip(i as int).contains(x) {
                    let k = choose|k: int| 0 <= k < w.skip(i as int).len() && w.skip(i as int)[k] == x;
                    assert(w.skip(j as int)[k + 1] == x);
                }
                if x == e {
                    assert(w.skip(j as int)[0] == x);
                }
            }
        }
        let anyj = exists|k: int| 0 <= k < j && descends(memos, new.memo_id, #[trigger] w[k]);
        let anyi = exists|k: int| 0 <= k < i && descends(memos, new.memo_id, #[trigger] w[k]);
        assert(e != new);
        if descends(memos, new.memo_id, e) {
            assert(anyi);
            if replaced {
                let w2 = w.remove(j as int);
                assert forall|k: int| 0 <= k < j implies (#[trigger] w2[k]) != new && !descends(memos, w2[k].memo_id, new) by {
                    assert(w2[k] == w[k]);
                }
                lemma_scan_keeps(memos, w2, new, j, true, true);
                assert(w2.take(j as int) =~= w.take(j as int));
                assert(w2.skip(j as int) =~= w.skip(i as int));
            } else {
                let w2 = w.update(j as int, new);
                assert forall|k: int| 0 <= k < j implies (#[trigger] w2[k]) != new && !descends(memos, w2[k].memo_id, new) by {
                    assert(w2[k] == w[k]);
                }
                lemma_scan_keeps(memos, w2, new, j, true, true);
                assert(w2.take(j as int) =~= w.take(j as int));
                assert(w2.skip(j as int) =~= seq![new] + w.skip(i as int));
                assert(w2.skip(j as int).to_set() =~= w.skip(i as int).to_set().insert(new)) by {
                    let t = w2.skip(j as int);
                    assert forall|x: MemoRef| t.to_set().contains(x) <==> w.skip(i as int).to_set().insert(new).contains(x) by {
                        if t.contains(x) {
                            let k = choose|k: int| 0 <= k < t.len() && t[k] == x;
                            if k > 0 {
                                assert(w.skip(i as int)[k - 1] == x);
                            }
                        }
                        if w.skip(i as int).contains(x) {
                            let k = choose|k: int| 0 <= k < w.skip(i as int).len() && w.skip(i as int)[k] == x;
                            assert(t[k + 1] == x);
                        }
                        if x == new {
                            assert(t[0] == x);
                        }
                    }
                }
            }
        } else {
            assert(anyi == anyj) by {
                if anyi {
                    let k = choose|k: int| 0 <= k < i && descends(memos, new.memo_id, #[trigger] w[k]);
                    assert(k != j);
                }
            }
            lemma_scan_keeps(memos, w, new, j, replaced, nd);
        }
    }
}

/// Scanning positions below `i` that hold the new memoref, where no other
/// memoref there descends it or is descended by it, changes nothing and
/// ends on finding it.
proof fn lemma_scan_found(memos: Seq<MemoView>, w: Seq<MemoRef>, new: MemoRef, i: nat, replaced: bool, nd: bool)
    requires
        i <= w.len(),
        exists|k: int| 0 <= k < i && #[trigger] w[k] == new,
        forall|k: int|
            0 <= k < i && (#[trigger] w[k]) != new ==> !descends(memos, w[k].memo_id, new) && !descends(memos, new.memo_id, w[k]),
    ensures
        apply_scan(memos, w, new, i, replaced, nd) == (w, ScanEnd::Found),
    decreases i,
{
    let j = (i - 1) as nat;
    if w[j as int] != new {
        let k = choose|k: int| 0 <= k < i && #[trigger] w[k] == new;
        assert(k != j);
        lemma_scan_found(memos, w, new, j, replaced, nd);
    }
}

/// Applying to an antichain head a memoref that it already accounts for
/// (holds it, or holds a memoref that descends it) changes nothing and
/// counts as not applied: applying the same memoref twice changes nothing
/// the second time.
pub proof fn lemma_apply_covered(memos: Seq<MemoView>, v: Seq<MemoRef>, x: MemoRef)
    requires
        memos_wf(memos),
        antichain(memos, v),
        covers(memos, v, x),
    ensures
        applied_refs(memos, v, x) == (v, false),
{
    if v.contains(x) {
        let kx = choose|kx: int| 0 <= kx < v.len() && v[kx] == x;
        assert(exists|k: int| 0 <= k < v.len() && #[trigger] v[k] == x);
        assert forall|k: int| 0 <= k < v.len() && (#[trigger] v[k]) != x implies !descends(memos, v[k].memo_id, x)
            && !descends(memos, x.memo_id, v[k]) by {
            assert(k != kx);
        }
        lemma_scan_found(memos, v, x, v.len(), false, false);
    } else {
        let e = choose|k: int| 0 <= k < v.len() && descends(memos, #[trigger] v[k].memo_id, x);
        assert forall|k: int| 0 <= k < v.len() implies (#[trigger] v[k]) != x && !descends(memos, x.memo_id, v[k]) by {
            assert(v.contains(v[k]));
            if descends(memos, x.memo_id, v[k]) {
                lemma_descends_transitive(memos, v[e].memo_id, x, v[k]);
                if k == e {
                    lemma_descends_older(memos, v[e].memo_id, v[e]);
                }
            }
        }
        assert(exists|k: int| 0 <= k < v.len() && descends(memos, (#[trigger] v[k]).memo_id, x));
        lemma_scan_stops(memos, v, x, v.len(), false, false);
    }
}

/// Applying a memoref to a head that is an antichain, and does not hold it,
/// leaves exactly the maximal memorefs among the head's and the new one;
/// the new one counts as applied exactly when it is among them.
pub proof fn lemma_apply_antichain(memos: Seq<MemoView>, v: Seq<MemoRef>, new: MemoRef)
    requires
        memos_wf(memos),
        antichain(memos, v),
        !v.contains(new),
    ensures
        applied_refs(memos, v, new).0.to_set() == maximal(memos, v.push(new)),
        applied_refs(memos, v, new).1 == maximal(memos, v.push(new)).contains(new),
{
    let s = v.push(new);
    assert(v.take(v.len() as int) =~= v);
    assert(v.skip(v.len() as int) =~= Seq::<MemoRef>::empty());
    assert forall|k: int| 0 <= k < v.len() implies (#[trigger] v[k]) != new by {
        assert(v.contains(v[k]));
    }
    assert(!descends(memos, new.memo_id, new)) by {
        if descends(memos, new.memo_id, new) {
            lemma_descends_older(memos, new.memo_id, new);
        }
    }
    assert forall|x: MemoRef| #[trigger] s.contains(x) <==> (v.contains(x) || x == new) by {
        if s.contains(x) {
            let k = choose|k: int| 0 <= k < s.len() && s[k] == x;
            if k < v.len() {
                assert(v[k] == x);
            }
        }
        if v.contains(x) {
            let k = choose|k: int| 0 <= k < v.len() && v[k] == x;
            assert(s[k] == x);
        }
        if x == new {
            assert(s[v.len() as int] == x);
        }
    }
    if exists|k: int| 0 <= k < v.len() && descends(memos, (#[trigger] v[k]).memo_id, new) {
        let e = choose|k: int| 0 <= k < v.len() && descends(memos, (#[trigger] v[k]).memo_id, new);
        assert forall|k: int| 0 <= k < v.len() implies !descends(memos, new.memo_id, #[trigger] v[k]) by {
            if descends(memos, new.memo_id, v[k]) {
                lemma_descends_transitive(memos, v[e].memo_id, new, v[k]);
                if k == e {
                    lemma_descends_older(memos, v[e].memo_id, v[e]);
                }
            }
        }
        lemma_scan_stops(memos, v, new, v.len(), false, false);
        assert(v.to_set() =~= maximal(memos, s)) by {
            assert forall|x: MemoRef| v.to_set().contains(x) <==> maximal(memos, s).contains(x) by {
                if v.contains(x) {
                    let kx = choose|kx: int| 0 <= kx < v.len() && v[kx] == x;
                    assert forall|y: MemoRef| #[trigger] s.contains(y) implies !descends(memos, y.memo_id, x) by {
                        if y != new {
                            let ky = choose|ky: int| 0 <= ky < v.len() && v[ky] == y;
                            if ky == kx {
                                if descends(memos, y.memo_id, x) {
                                    lemma_descends_older(memos, y.memo_id, x);
                                }
                            }
                        }
                    }
                }
                if maximal(memos, s).contains(x) && x == new {
                    assert(s.contains(v[e]));
                }
            }
        }
        assert(!maximal(memos, s).contains(new)) by {
            assert(s.contains(v[e]));
        }
    } else {
        lemma_scan_keeps(memos, v, new, v.len(), false, false);
        let kept = kept_by(memos, v.to_set(), new);
        assert(v.take(v.len() as int).to_set() =~= v.to_set());
        assert(v.skip(v.len() as int).to_set() =~= Set::<MemoRef>::empty());
        let (w, end) = apply_scan(memos, v, new, v.len(), false, false);
        let anyd = exists|k: int| 0 <= k < v.len() && descends(memos, new.memo_id, #[trigger] v[k]);
        assert(maximal(memos, s) =~= kept.insert(new)) by {
            assert forall|x: MemoRef| maximal(memos, s).contains(x) <==> kept.insert(new).contains(x) by {
                if x != new && v.contains(x) {
                    let kx = choose|kx: int| 0 <= kx < v.len() && v[kx] == x;
                    if !descends(memos, new.memo_id, x) {
                        assert forall|y: MemoRef| #[trigger] s.contains(y) implies !descends(memos, y.memo_id, x) by {
                            if y != new {
                                let ky = choose|ky: int| 0 <= ky < v.len() && v[ky] == y;
                                if ky == kx {
                                    if descends(memos, y.memo_id, x) {
                                        lemma_descends_older(memos, y.memo_id, x);
                                    }
                                }
                            }
                        }
                    }
                    if maximal(memos, s).contains(x) {
                        assert(s.contains(new));
                    }
                }
                if x == new {
                    assert forall|y: MemoRef| #[trigger] s.contains(y) implies !descends(memos, y.memo_id, x) by {
                        if y != new {
                            let ky = choose|ky: int| 0 <= ky < v.len() && v[ky] == y;
                        }
                    }
                }
            }
        }
        if anyd {
            assert(w.to_set() =~= kept.insert(new));
        } else {
            assert(kept =~= v.to_set());
            assert(w.to_set() =~= v.to_set());
            assert(w.push(new).to_set() =~= w.to_set().insert(new)) by {
                let t = w.push(new);
                assert forall|x: MemoRef| t.to_set().contains(x) <==> w.to_set().insert(new).contains(x) by {
                    if t.contains(x) {
                        let k = choose|k: int| 0 <= k < t.len() && t[k] == x;
                        if k < w.len() {
                            assert(w[k] == x);
                        }
                    }
                    if w.contains(x) {
                        let k = choose|k: int| 0 <= k < w.len() && w[k] == x;
                        assert(t[k] == x);
                    }
                    if x == new {
                        assert(t[w.len() as int] == x);
                    }
                }
            }
        }
    }
}

/// Every memoref of `r` is one of `v` or is `new`.
pub open spec fn refs_within(r: Seq<MemoRef>, v: Seq<MemoRef>, new: MemoRef) -> bool {
    forall|k: int| 0 <= k < r.len() ==> v.contains(#[trigger] r[k]) || r[k] == new
}

/// The scan of `apply_memoref` only keeps memorefs of the head and puts in the new one.
pub proof fn lemma_apply_scan_within(
    memos: Seq<MemoView>,
    v: Seq<MemoRef>,
    new: MemoRef,
    i: nat,
    replaced: bool,
    new_descends: bool,
)
    ensures
        refs_within(apply_scan(memos, v, new, i, replaced, new_descends).0, v, new),
    decreases i,
{
    if i == 0 || i > v.len() {
        assert forall|k: int| 0 <= k < v.len() implies v.contains(#[trigger] v[k]) || v[k] == new by {
            assert(v.contains(v[k]));
        }
    } else {
        let j = (i - 1) as nat;
        let e = v[j as int];
        let res = apply_scan(memos, v, new, i, replaced, new_descends).0;
        if e == new || descends(memos, e.memo_id, new) {
            assert forall|k: int| 0 <= k < v.len() implies v.contains(#[trigger] v[k]) || v[k] == new by {
                assert(v.contains(v[k]));
            }
        } else if descends(memos, new.memo_id, e) {
            let v2 = if replaced { v.remove(j as int) } else { v.update(j as int, new) };
            lemma_apply_scan_within(memos, v2, new, j, true, true);
            assert forall|k: int| 0 <= k < res.len() implies v.contains(#[trigger] res[k]) || res[k] == new by {
                if v2.contains(res[k]) {
                    let m = choose|m: int| 0 <= m < v2.len() && v2[m] == res[k];
                    if replaced {
                        if m < j {
                            assert(v[m] == v2[m]);
                        } else {
                            assert(v[m + 1] == v2[m]);
                        }
                    } else if m != j {
                        assert(v[m] == v2[m]);
                    }
                }
            }
        } else {
            lemma_apply_scan_within(memos, v, new, j, replaced, new_descends);
        }
    }
}

/// Applying valid memorefs to a valid head succeeds and gives a valid head.
pub proof fn lemma_apply_fold_valid(memos: Seq<MemoView>, h: HeadView, news: Seq<MemoRef>, acc: bool)
    requires
        head_valid(memos, h),
        forall|k: int| 0 <= k < news.len() ==> ref_valid(memos, #[trigger] news[k]),
    ensures
        apply_fold(memos, h, news, acc).1 is Some,
        head_valid(memos, apply_fold(memos, h, news, acc).0),
    decreases news.len(),
{
    if news.len() > 0 {
        let new = news[0];
        assert(ref_valid(memos, new));
        assert(apply_ok(memos, h, new)) by {
            assert forall|k: int| 0 <= k < h.refs().len() implies (#[trigger] h.refs()[k]).memo_id < memos.len() by {}
        }
        let (h1, r1) = spec_apply_memoref(memos, h, new);
        match h {
            HeadView::Null => {
                assert(h1 == new.spec_to_head());
                assert(h1.refs() =~= seq![new]);
            },
            _ => {
                let v = h.refs();
                let (w, end) = apply_scan(memos, v, new, v.len(), false, false);
                lemma_apply_scan_within(memos, v, new, v.len(), false, false);
                let (w2, b) = applied_refs(memos, v, new);
                assert(refs_within(w2, v, new)) by {
                    assert forall|k: int| 0 <= k < w2.len() implies v.contains(#[trigger] w2[k]) || w2[k] == new by {
                        if k < w.len() {
                            assert(w2[k] == w[k]);
                        }
                    }
                }
                assert(h1.refs() == w2);
                assert forall|k: int| 0 <= k < h1.refs().len() implies #[trigger] h1.refs()[k].memo_id < memos.len()
                    && ref_valid(memos, h1.refs()[k]) by {
                    if v.contains(h1.refs()[k]) {
                        let m = choose|m: int| 0 <= m < v.len() && v[m] == h1.refs()[k];
                        assert(ref_valid(memos, v[m]));
                    }
                }
            },
        }
        assert forall|k: int| 0 <= k < news.drop_first().len() implies ref_valid(memos, #[trigger] news.drop_first()[k]) by {
            assert(news.drop_first()[k] == news[k + 1]);
        }
        lemma_apply_fold_valid(memos, h1, news.drop_first(), acc || r1.unwrap());
    }
}

/// When the slab holds every memo of `h`, the comparison of heads needs no retrieval that fails.
pub proof fn lemma_descends_or_contains_found(memos: Seq<MemoView>, h: HeadView, o: HeadView)
    requires
        ids_found(memos, h.refs()),
    ensures
        spec_descends_or_contains(memos, h, o) is Some,
{
    if h.refs().len() > 0 && o.refs().len() > 0 {
        lemma_doc_rows_found(memos, h.refs(), o.refs());
    }
}

/// A head descends or contains another exactly when both are non-empty and
/// every memoref of the first equals or descends every memoref of the second;
/// the comparison fails only for a memoref of the first that the slab lacks.
pub proof fn lemma_descends_or_contains_iff(memos: Seq<MemoView>, h: HeadView, o: HeadView)
    ensures
        spec_descends_or_contains(memos, h, o) is None ==> !ids_found(memos, h.refs()),
        spec_descends_or_contains(memos, h, o) == Some(true) <==> {
            &&& h.refs().len() > 0
            &&& o.refs().len() > 0
            &&& forall|i: int, j: int|
                #![trigger h.refs()[i], o.refs()[j]]
                0 <= i < h.refs().len() && 0 <= j < o.refs().len() ==> h.refs()[i] == o.refs()[j] || descends(
                    memos,
                    h.refs()[i].memo_id,
                    o.refs()[j],
                )
        },
{
    lemma_doc_rows_true(memos, h.refs(), o.refs());
    if ids_found(memos, h.refs()) {
        lemma_descends_or_contains_found(memos, h, o);
    }
}

/// The rows of the comparison of heads all hold exactly when every memoref
/// of `hs` equals or descends every memoref of `os`.
proof fn lemma_doc_rows_true(memos: Seq<MemoView>, hs: Seq<MemoRef>, os: Seq<MemoRef>)
    ensures
        doc_rows(memos, hs, os) == Some(true) <==> forall|i: int, j: int|
            #![trigger hs[i], os[j]]
            0 <= i < hs.len() && 0 <= j < os.len() ==> hs[i] == os[j] || descends(memos, hs[i].memo_id, os[j]),
    decreases hs.len(),
{
    if hs.len() > 0 {
        let m = hs[0];
        let t = hs.drop_first();
        lemma_doc_rows_true(memos, t, os);
        let row = forall|j: int| 0 <= j < os.len() ==> #[trigger] os[j] == m || descends(memos, m.memo_id, os[j]);
        assert(doc_row(memos, m, os) == Some(true) <==> row) by {
            if !(forall|k: int| 0 <= k < os.len() ==> #[trigger] os[k] == m) {
                let k = choose|k: int| 0 <= k < os.len() && #[trigger] os[k] != m;
                if m.memo_id >= memos.len() {
                    assert(!descends(memos, m.memo_id, os[k]));
                }
            }
        }
        if doc_rows(memos, hs, os) == Some(true) {
            assert forall|i: int, j: int|
                #![trigger hs[i], os[j]]
                0 <= i < hs.len() && 0 <= j < os.len() implies hs[i] == os[j] || descends(memos, hs[i].memo_id, os[j]) by {
                if i == 0 {
                    assert(os[j] == m || descends(memos, m.memo_id, os[j]));
                } else {
                    assert(hs[i] == t[i - 1]);
                }
            }
        }
        if forall|i: int, j: int|
            #![trigger hs[i], os[j]]
            0 <= i < hs.len() && 0 <= j < os.len() ==> hs[i] == os[j] || descends(memos, hs[i].memo_id, os[j]) {
            assert forall|j: int| 0 <= j < os.len() implies #[trigger] os[j] == m || descends(memos, m.memo_id, os[j]) by {
                assert(hs[0] == m);
            }
            assert forall|i: int, j: int|
                #![trigger t[i], os[j]]
                0 <= i < t.len() && 0 <= j < os.len() implies t[i] == os[j] || descends(memos, t[i].memo_id, os[j]) by {
                assert(t[i] == hs[i + 1]);
            }
        }
    }
}

/// The rows of the comparison of heads all succeed when the slab holds every memo of `hs`.
pub proof fn lemma_doc_rows_found(memos: Seq<MemoView>, hs: Seq<MemoRef>, os: Seq<MemoRef>)
    requires
        ids_found(memos, hs),
    ensures
        doc_rows(memos, hs, os) is Some,
    decreases hs.len(),
{
    if hs.len() > 0 {
        assert(hs[0].memo_id < memos.len());
        assert forall|k: int| 0 <= k < hs.drop_first().len() implies (#[trigger] hs.drop_first()[k]).memo_id < memos.len() by {
            assert(hs.drop_first()[k] == hs[k + 1]);
        }
        lemma_doc_rows_found(memos, hs.drop_first(), os);
    }
}

/// The memorefs `refs` account for memoref `x`: one of them is `x` or descends it.
pub open spec fn covers(memos: Seq<MemoView>, refs: Seq<MemoRef>, x: MemoRef) -> bool {
    refs.contains(x) || exists|k: int| 0 <= k < refs.len() && descends(memos, #[trigger] refs[k].memo_id, x)
}

/// What `refs` accounts for in a slab, a slab that extends it accounts for too.
pub proof fn lemma_covers_extend(smaller: Seq<MemoView>, bigger: Seq<MemoView>, refs: Seq<MemoRef>, x: MemoRef)
    requires
        memos_extend(smaller, bigger),
        covers(smaller, refs, x),
    ensures
        covers(bigger, refs, x),
{
    if !refs.contains(x) {
        let k = choose|k: int| 0 <= k < refs.len() && descends(smaller, #[trigger] refs[k].memo_id, x);
        lemma_descends_extend(smaller, bigger, refs[k].memo_id, x);
    }
}

/// When `b` accounts for every memoref of `a`, it accounts for what `a` accounts for.
pub proof fn lemma_covers_trans(memos: Seq<MemoView>, a: Seq<MemoRef>, b: Seq<MemoRef>, x: MemoRef)
    requires
        memos_wf(memos),
        covers(memos, a, x),
        forall|y: MemoRef| #[trigger] a.contains(y) ==> covers(memos, b, y),
    ensures
        covers(memos, b, x),
{
    if a.contains(x) {
    } else {
        let k = choose|k: int| 0 <= k < a.len() && descends(memos, #[trigger] a[k].memo_id, x);
        let y = a[k];
        assert(a.contains(y));
        if !b.contains(y) {
            let j = choose|j: int| 0 <= j < b.len() && descends(memos, #[trigger] b[j].memo_id, y);
            lemma_descends_transitive(memos, b[j].memo_id, y, x);
        } else {
            let j = choose|j: int| 0 <= j < b.len() && b[j] == y;
            assert(descends(memos, b[j].memo_id, x));
        }
    }
}

/// Every head of `after` whose subject was resident in `before` accounts for
/// every memoref that the subject's head held there: heads only advance.
pub open spec fn heads_advance(memos: Seq<MemoView>, before: Map<SubjectId, HeadView>, after: Map<SubjectId, HeadView>) -> bool {
    forall|u: SubjectId, x: MemoRef|
        #![trigger before[u].refs().contains(x), after[u]]
        after.contains_key(u) && before.contains_key(u) && before[u].refs().contains(x) ==> covers(memos, after[u].refs(), x)
}

/// Heads that advance twice, without a subject coming back in between, advance.
pub proof fn lemma_heads_advance_trans(
    memos: Seq<MemoView>,
    a: Map<SubjectId, HeadView>,
    b: Map<SubjectId, HeadView>,
    c: Map<SubjectId, HeadView>,
)
    requires
        memos_wf(memos),
        heads_advance(memos, a, b),
        heads_advance(memos, b, c),
        c.dom().subset_of(b.dom()),
    ensures
        heads_advance(memos, a, c),
{
    assert forall|u: SubjectId, x: MemoRef|
        #![trigger a[u].refs().contains(x), c[u]]
        c.contains_key(u) && a.contains_key(u) && a[u].refs().contains(x) implies covers(memos, c[u].refs(), x) by {
        assert(b.contains_key(u));
        let bu = b[u];
        assert(covers(memos, bu.refs(), x));
        assert forall|y: MemoRef| #[trigger] bu.refs().contains(y) implies covers(memos, c[u].refs(), y) by {
            assert(b[u].refs().contains(y));
        }
        lemma_covers_trans(memos, bu.refs(), c[u].refs(), x);
    }
}

/// Heads that advance in a slab advance in a slab that extends it.
pub proof fn lemma_heads_advance_extend(
    smaller: Seq<MemoView>,
    bigger: Seq<MemoView>,
    a: Map<SubjectId, HeadView>,
    b: Map<SubjectId, HeadView>,
)
    requires
        memos_extend(smaller, bigger),
        heads_advance(smaller, a, b),
    ensures
        heads_advance(bigger, a, b),
{
    assert forall|u: SubjectId, x: MemoRef|
        #![trigger a[u].refs().contains(x), b[u]]
        b.contains_key(u) && a.contains_key(u) && a[u].refs().contains(x) implies covers(bigger, b[u].refs(), x) by {
        lemma_covers_extend(smaller, bigger, b[u].refs(), x);
    }
}

/// Every memoref of `v0` is still in `v`, or is descended by `new`, which is in `v`.
pub open spec fn keeps_or_descended(memos: Seq<MemoView>, v0: Seq<MemoRef>, v: Seq<MemoRef>, new: MemoRef) -> bool {
    forall|k: int|
        0 <= k < v0.len() ==> v.contains(#[trigger] v0[k]) || (descends(memos, new.memo_id, v0[k]) && v.contains(new))
}

/// The scan of `apply_memoref` drops only memorefs that the new one descends,
/// after it has put the new one in; and where it ends, the new memoref is
/// accounted for.
pub proof fn lemma_apply_scan_accounts(
    memos: Seq<MemoView>,
    v0: Seq<MemoRef>,
    v: Seq<MemoRef>,
    new: MemoRef,
    i: nat,
    replaced: bool,
)
    requires
        replaced ==> v.contains(new),
        keeps_or_descended(memos, v0, v, new),
    ensures
        keeps_or_descended(memos, v0, apply_scan(memos, v, new, i, replaced, replaced).0, new),
        apply_scan(memos, v, new, i, replaced, replaced).1 is Found ==> apply_scan(memos, v, new, i, replaced, replaced).0.contains(new),
        apply_scan(memos, v, new, i, replaced, replaced).1 matches ScanEnd::Done { new_descends, new_is_descended } ==> {
            &&& new_descends ==> apply_scan(memos, v, new, i, replaced, replaced).0.contains(new)
            &&& new_is_descended ==> exists|k: int|
                0 <= k < apply_scan(memos, v, new, i, replaced, replaced).0.len() && descends(
                    memos,
                    #[trigger] apply_scan(memos, v, new, i, replaced, replaced).0[k].memo_id,
                    new,
                )
        },
    decreases i,
{
    if i == 0 || i > v.len() {
    } else {
        let j = (i - 1) as nat;
        let e = v[j as int];
        if e == new {
            assert(v[j as int] == new);
        } else if descends(memos, e.memo_id, new) {
            assert(descends(memos, v[j as int].memo_id, new));
        } else if descends(memos, new.memo_id, e) {
            let v2 = if replaced { v.remove(j as int) } else { v.update(j as int, new) };
            assert(v2.contains(new)) by {
                if replaced {
                    let m = choose|m: int| 0 <= m < v.len() && v[m] == new;
                    assert(m != j);
                    if m < j {
                        assert(v2[m] == new);
                    } else {
                        assert(v2[m - 1] == new);
                    }
                } else {
                    assert(v2[j as int] == new);
                }
            }
            assert forall|k: int| 0 <= k < v0.len() implies v2.contains(#[trigger] v0[k]) || (descends(memos, new.memo_id, v0[k])
                && v2.contains(new)) by {
                if v.contains(v0[k]) {
                    let m = choose|m: int| 0 <= m < v.len() && v[m] == v0[k];
                    if m == j {
                    } else if replaced {
                        if m < j {
                            assert(v2[m] == v0[k]);
                        } else {
                            assert(v2[m - 1] == v0[k]);
                        }
                    } else {
                        assert(v2[m] == v0[k]);
                    }
                }
            }
            lemma_apply_scan_accounts(memos, v0, v2, new, j, true);
        } else {
            lemma_apply_scan_accounts(memos, v0, v, new, j, replaced);
        }
    }
}

/// Applying a memoref without a retrieval error accounts for it, and keeps
/// accounting for every memoref that the head accounted for.
pub proof fn lemma_apply_memoref_accounts(memos: Seq<MemoView>, h: HeadView, new: MemoRef, x: MemoRef)
    requires
        memos_wf(memos),
        spec_apply_memoref(memos, h, new).1 is Some,
    ensures
        covers(memos, spec_apply_memoref(memos, h, new).0.refs(), new),
        covers(memos, h.refs(), x) ==> covers(memos, spec_apply_memoref(memos, h, new).0.refs(), x),
{
    let h1 = spec_apply_memoref(memos, h, new).0;
    match h {
        HeadView::Null => {
            assert(h1.refs() =~= seq![new]);
            assert(h1.refs()[0] == new);
        },
        _ => {
            let v0 = h.refs();
            assert(keeps_or_descended(memos, v0, v0, new)) by {
                assert forall|k: int| 0 <= k < v0.len() implies v0.contains(#[trigger] v0[k]) || (descends(memos, new.memo_id, v0[k])
                    && v0.contains(new)) by {
                    assert(v0[k] == v0[k]);
                }
            }
            lemma_apply_scan_accounts(memos, v0, v0, new, v0.len(), false);
            let (w, end) = apply_scan(memos, v0, new, v0.len(), false, false);
            let w2 = applied_refs(memos, v0, new).0;
            assert(h1.refs() == w2);
            assert forall|k: int| 0 <= k < w.len() implies w2.contains(#[trigger] w[k]) by {
                assert(w2[k] == w[k]);
            }
            assert(keeps_or_descended(memos, v0, w2, new)) by {
                assert forall|k: int| 0 <= k < v0.len() implies w2.contains(#[trigger] v0[k]) || (descends(memos, new.memo_id, v0[k])
                    && w2.contains(new)) by {
                    if w.contains(v0[k]) {
                        let m = choose|m: int| 0 <= m < w.len() && w[m] == v0[k];
                        assert(w2[m] == v0[k]);
                    }
                    if w.contains(new) {
                        let m = choose|m: int| 0 <= m < w.len() && w[m] == new;
                        assert(w2[m] == new);
                    }
                }
            }
            match end {
                ScanEnd::Found => {
                    let m = choose|m: int| 0 <= m < w.len() && w[m] == new;
                    assert(w2[m] == new);
                },
                ScanEnd::Done { new_descends, new_is_descended } => {
                    if new_is_descended {
                        let k = choose|k: int| 0 <= k < w.len() && descends(memos, #[trigger] w[k].memo_id, new);
                        assert(w2[k] == w[k]);
                    } else if new_descends {
                        let m = choose|m: int| 0 <= m < w.len() && w[m] == new;
                        assert(w2[m] == new);
                    } else {
                        assert(w2[w.len() as int] == new);
                    }
                },
            }
            if covers(memos, v0, x) {
                if v0.contains(x) {
                    let m = choose|m: int| 0 <= m < v0.len() && v0[m] == x;
                    if !w2.contains(v0[m]) {
                        let q = choose|q: int| 0 <= q < w2.len() && w2[q] == new;
                        assert(descends(memos, w2[q].memo_id, x));
                    }
                } else {
                    let k = choose|k: int| 0 <= k < v0.len() && descends(memos, #[trigger] v0[k].memo_id, x);
                    let f = v0[k];
                    if w2.contains(f) {
                        let q = choose|q: int| 0 <= q < w2.len() && w2[q] == f;
                        assert(descends(memos, w2[q].memo_id, x));
                    } else {
                        lemma_descends_transitive(memos, new.memo_id, f, x);
                        let q = choose|q: int| 0 <= q < w2.len() && w2[q] == new;
                        assert(descends(memos, w2[q].memo_id, x));
                    }
                }
            }
        },
    }
}

/// A head after applying memorefs without a retrieval error accounts for
/// every memoref it was given and for every memoref that it accounted for
/// before: each is in the head, or a memoref of the head descends it.
pub proof fn lemma_apply_fold_accounts(memos: Seq<MemoView>, h: HeadView, news: Seq<MemoRef>, acc: bool, x: MemoRef)
    requires
        memos_wf(memos),
        apply_fold(memos, h, news, acc).1 is Some,
    ensures
        covers(memos, h.refs(), x) ==> covers(memos, apply_fold(memos, h, news, acc).0.refs(), x),
        news.contains(x) ==> covers(memos, apply_fold(memos, h, news, acc).0.refs(), x),
    decreases news.len(),
{
    if news.len() > 0 {
        let (h1, r1) = spec_apply_memoref(memos, h, news[0]);
        let rest = news.drop_first();
        let b = r1.unwrap();
        lemma_apply_memoref_accounts(memos, h, news[0], x);
        lemma_apply_memoref_accounts(memos, h, news[0], news[0]);
        lemma_apply_fold_accounts(memos, h1, rest, acc || b, x);
        lemma_apply_fold_accounts(memos, h1, rest, acc || b, news[0]);
        if news.contains(x) && x != news[0] {
            let m = choose|m: int| 0 <= m < news.len() && news[m] == x;
            assert(rest[m - 1] == x);
        }
    }
}

impl MemoRefHead {
    /// The memorefs of the head, as a vector.
    pub fn to_vec(&self) -> (r: Vec<MemoRef>)
        ensures
            r@ == self@.refs(),
    {
        match self {
            MemoRefHead::Null => Vec::new(),
            MemoRefHead::Subject { head, .. } => {
                let h = head.clone();
                proof { assert(h@ =~= head@); }
                h
            },
            MemoRefHead::Anonymous { head } => {
                let h = head.clone();
                proof { assert(h@ =~= head@); }
                h
            },
        }
    }

    /// The memorefs of the head, as a double-ended queue.
    pub fn to_vecdeque(&self) -> (r: std::collections::VecDeque<MemoRef>)
        ensures
            r@ == self@.refs(),
    {
        let n = self.len();
        let mut r: std::collections::VecDeque<MemoRef> = std::collections::VecDeque::new();
        let mut i: usize = 0;
        while i < n
            invariant
                n == self@.refs().len(),
                i <= n,
                r@ == self@.refs().take(i as int),
            decreases n - i,
        {
            r.push_back(self.ref_at(i));
            proof {
                assert(self@.refs().take(i + 1) =~= self@.refs().take(i as int).push(self@.refs()[i as int]));
            }
            i = i + 1;
        }
        proof {
            assert(self@.refs().take(n as int) =~= self@.refs());
        }
        r
    }

    /// The same kind of head with other memorefs.
    pub fn with_refs(&self, v: Vec<MemoRef>) -> (r: MemoRefHead)
        ensures
            r@ == self@.with_refs(v@),
    {
        match self {
            MemoRefHead::Null => MemoRefHead::Null,
            MemoRefHead::Subject { subject_id, .. } => MemoRefHead::Subject { subject_id: *subject_id, head: v },
            MemoRefHead::Anonymous { .. } => MemoRefHead::Anonymous { head: v },
        }
    }

    /// The ids of the memos of the head.
    pub fn memo_ids(&self) -> (r: Vec<MemoId>)
        ensures
            r@ == self@.refs().map_values(|m: MemoRef| m.memo_id),
    {
        let n = self.len();
        let mut r: Vec<MemoId> = Vec::new();
        let mut i: usize = 0;
        while i < n
            invariant
                n == self@.refs().len(),
                i <= n,
                r@ == self@.refs().take(i as int).map_values(|m: MemoRef| m.memo_id),
            decreases n - i,
        {
            let m = self.ref_at(i);
            r.push(m.memo_id);
            proof {
                assert(self@.refs().take(i + 1) =~= self@.refs().take(i as int).push(m));
            }
            i = i + 1;
        }
        proof {
            assert(self@.refs().take(n as int) =~= self@.refs());
        }
        r
    }

    /// The subject of the head, if it is the head of a subject.
    pub fn subject_id(&self) -> (r: Option<SubjectId>)
        ensures
            r == self@.subject(),
    {
        match self {
            MemoRefHead::Subject { subject_id, .. } => Some(*subject_id),
            _ => None,
        }
    }

    /// Whether the head is not null.
    pub fn is_some(&self) -> (r: bool)
        ensures
            r == !(self@ is Null),
    {
        match self {
            MemoRefHead::Null => false,
            _ => true,
        }
    }

    /// Whether the head holds no memoref.
    pub fn is_empty(&self) -> (r: bool)
        ensures
            r == (self@.refs().len() == 0),
    {
        self.len() == 0
    }

    /// Whether every memo of the head is held by the slab.
    fn all_found(&self, slab: &Slab) -> (r: bool)
        ensures
            r == ids_found(slab.memos(), self@.refs()),
    {
        let n = self.len();
        let len = slab.memo_count();
        let mut i: usize = 0;
        while i < n
            invariant
                n == self@.refs().len(),
                len == slab.memos().len(),
                i <= n,
                forall|k: int| 0 <= k < i ==> (#[trigger] self@.refs()[k]).memo_id < slab.memos().len(),
            decreases n - i,
        {
            let m = self.ref_at(i);
            if (m.memo_id as u128) >= (len as u128) {
                return false;
            }
            i = i + 1;
        }
        true
    }

    /// Applies a memoref to the head. The new memoref replaces the memorefs
    /// of the head that it descends, is appended when it is concurrent with
    /// all of them, and is left out when it is in the head or a memoref of the
    /// head descends it. Returns whether it was applied.
    pub fn apply_memoref(&mut self, new: &MemoRef, slab: &Slab) -> (r: Result<bool, WriteError>)
        requires
            slab.wf(),
        ensures
            final(self)@ == spec_apply_memoref(slab.memos(), old(self)@, *new).0,
            spec_apply_memoref(slab.memos(), old(self)@, *new).1 matches Some(b) ==> r == Ok::<bool, WriteError>(b),
            spec_apply_memoref(slab.memos(), old(self)@, *new).1 is None ==> r == Err::<bool, WriteError>(
                WriteError::RetrieveError(Box::new(RetrieveError::NotFound)),
            ),
    {
        let ghost memos = slab.memos();
        if !self.is_some() {
            *self = new.to_head();
            return Ok(true);
        }
        if (new.memo_id as u128) >= (slab.memo_count() as u128) || !self.all_found(slab) {
            return Err(WriteError::RetrieveError(Box::new(RetrieveError::NotFound)));
        }
        let mut v = self.to_vec();
        let ghost v0 = v@;
        let mut replaced = false;
        let mut new_descends = false;
        let mut new_is_descended = false;
        let mut i = v.len();
        while i > 0
            invariant_except_break
                !new_is_descended,
            invariant
                slab.wf(),
                memos == slab.memos(),
                i <= v@.len(),
                new.memo_id < memos.len(),
                ids_found(memos, v@),
                new_descends == replaced,
                self@ == old(self)@,
                !(old(self)@ is Null),
                v0 == old(self)@.refs(),
                apply_ok(memos, old(self)@, *new),
                apply_scan(memos, v0, *new, v0.len(), false, false) == apply_scan(
                    memos,
                    v@,
                    *new,
                    i as nat,
                    replaced,
                    new_descends,
                ) || (new_is_descended && apply_scan(memos, v0, *new, v0.len(), false, false) == (
                    v@,
                    ScanEnd::Done { new_descends, new_is_descended: true },
                )),
            ensures
                !new_is_descended ==> i == 0 && apply_scan(memos, v0, *new, v0.len(), false, false)
                    == apply_scan(memos, v@, *new, 0, replaced, new_descends),
                new_is_descended ==> apply_scan(memos, v0, *new, v0.len(), false, false) == (
                    v@,
                    ScanEnd::Done { new_descends, new_is_descended: true },
                ),
            decreases i,
        {
            let j = i - 1;
            let existing = v[j];
            if existing == *new {
                proof {
                    assert(apply_scan(memos, v@, *new, i as nat, replaced, new_descends) == (v@, ScanEnd::Found));
                }
                let h = self.with_refs(v);
                *self = h;
                return Ok(false);
            }
            if slab.id_descends(existing.memo_id, new) {
                proof {
                    assert(apply_scan(memos, v@, *new, i as nat, replaced, new_descends) == (v@, ScanEnd::Done { new_descends, new_is_descended: true }));
                }
                new_is_descended = true;
                break;
            }
            if slab.id_descends(new.memo_id, &existing) {
                if replaced {
                    let ghost before = v@;
                    v.remove(j);
                    proof {
                        assert(v@ =~= before.remove(j as int));
                        assert forall|k: int| 0 <= k < v@.len() implies (#[trigger] v@[k]).memo_id < memos.len() by {
                            if k < j { assert(v@[k] == before[k]); } else { assert(v@[k] == before[k + 1]); }
                        }
                    }
                } else {
                    v.set(j, *new);
                    replaced = true;
                }
                new_descends = true;
            }
            i = j;
        }
        proof {
            if !new_is_descended {
                assert(apply_scan(memos, v@, *new, 0, replaced, new_descends) == (v@, ScanEnd::Done { new_descends, new_is_descended: false }));
            }
        }
        let applied;
        if !new_descends && !new_is_descended {
            v.push(*new);
            applied = true;
        } else {
            applied = new_descends;
        }
        let h = self.with_refs(v);
        *self = h;
        Ok(applied)
    }

    /// Applies the memorefs of `new_memorefs` in order; stops at the first
    /// retrieval error.
    pub fn apply_memorefs(&mut self, new_memorefs: &Vec<MemoRef>, slab: &Slab) -> (r: Result<(), WriteError>)
        requires
            slab.wf(),
        ensures
            final(self)@ == apply_fold(slab.memos(), old(self)@, new_memorefs@, false).0,
            apply_fold(slab.memos(), old(self)@, new_memorefs@, false).1 is Some ==> r is Ok,
            apply_fold(slab.memos(), old(self)@, new_memorefs@, false).1 is None ==> r == Err::<(), WriteError>(
                WriteError::RetrieveError(Box::new(RetrieveError::NotFound)),
            ),
    {
        let ghost memos = slab.memos();
        let ghost h0 = self@;
        let ghost news = new_memorefs@;
        let n = new_memorefs.len();
        let mut i: usize = 0;
        let mut acc = false;
        proof { assert(news.skip(0) =~= news); }
        while i < n
            invariant
                slab.wf(),
                memos == slab.memos(),
                news == new_memorefs@,
                h0 == old(self)@,
                n == news.len(),
                i <= n,
                apply_fold(memos, h0, news, false) == apply_fold(memos, self@, news.skip(i as int), acc),
            decreases n - i,
        {
            let new = new_memorefs[i];
            proof {
                assert(news.skip(i as int)[0] == new);
                assert(news.skip(i as int).drop_first() =~= news.skip(i + 1));
            }
            let ghost before = self@;
            let ghost rest = news.skip(i as int);
            let res = self.apply_memoref(&new, slab);
            match res {
                Ok(b) => {
                    acc = acc || b;
                },
                Err(e) => {
                    proof {
                        assert(spec_apply_memoref(memos, before, new).1 is None);
                        assert(apply_fold(memos, before, rest, acc) == (self@, None::<bool>));
                        assert(apply_fold(memos, h0, news, false) == (self@, None::<bool>));
                    }
                    return Err(e);
                },
            }
            i = i + 1;
        }
        Ok(())
    }

    /// Applies the memorefs of another head in order; returns whether any
    /// was applied. Stops at the first retrieval error.
    pub fn apply(&mut self, other: &MemoRefHead, slab: &Slab) -> (r: Result<bool, WriteError>)
        requires
            slab.wf(),
        ensures
            final(self)@ == apply_fold(slab.memos(), old(self)@, other@.refs(), false).0,
            apply_fold(slab.memos(), old(self)@, other@.refs(), false).1 matches Some(b) ==> r == Ok::<bool, WriteError>(b),
            apply_fold(slab.memos(), old(self)@, other@.refs(), false).1 is None ==> r == Err::<bool, WriteError>(
                WriteError::RetrieveError(Box::new(RetrieveError::NotFound)),
            ),
    {
        let ghost memos = slab.memos();
        let ghost h0 = self@;
        let ghost news = other@.refs();
        let n = other.len();
        let mut i: usize = 0;
        let mut applied = false;
        proof { assert(news.skip(0) =~= news); }
        while i < n
            invariant
                slab.wf(),
                memos == slab.memos(),
                news == other@.refs(),
                h0 == old(self)@,
                n == news.len(),
                i <= n,
                apply_fold(memos, h0, news, false) == apply_fold(memos, self@, news.skip(i as int), applied),
            decreases n - i,
        {
            let new = other.ref_at(i);
            proof {
                assert(news.skip(i as int)[0] == new);
                assert(news.skip(i as int).drop_first() =~= news.skip(i + 1));
            }
            let ghost before = self@;
            let ghost rest = news.skip(i as int);
            let res = self.apply_memoref(&new, slab);
            match res {
                Ok(b) => {
                    if b {
                        applied = true;
                    }
                },
                Err(e) => {
                    proof {
                        assert(spec_apply_memoref(memos, before, new).1 is None);
                        assert(apply_fold(memos, before, rest, applied) == (self@, None::<bool>));
                        assert(apply_fold(memos, h0, news, false) == (self@, None::<bool>));
                    }
                    return Err(e);
                },
            }
            i = i + 1;
        }
        Ok(applied)
    }

    /// Whether this head fully descends (or contains) `other`: both are
    /// non-empty and every memoref of this head equals or descends every
    /// memoref of `other`. Any hint of concurrency gives `false`.
    pub fn descends_or_contains(&self, other: &MemoRefHead, slab: &Slab) -> (r: Result<bool, RetrieveError>)
        requires
            slab.wf(),
        ensures
            spec_descends_or_contains(slab.memos(), self@, other@) matches Some(b) ==> r == Ok::<bool, RetrieveError>(b),
            spec_descends_or_contains(slab.memos(), self@, other@) is None ==> r == Err::<bool, RetrieveError>(
                RetrieveError::NotFound,
            ),
    {
        let ghost memos = slab.memos();
        let n = self.len();
        let k = other.len();
        if n == 0 || k == 0 {
            return Ok(false);
        }
        let ghost hs = self@.refs();
        let ghost os = other@.refs();
        let mut i: usize = 0;
        proof { assert(hs.skip(0) =~= hs); }
        while i < n
            invariant
                slab.wf(),
                memos == slab.memos(),
                hs == self@.refs(),
                os == other@.refs(),
                n == hs.len(),
                k == os.len(),
                i <= n,
                doc_rows(memos, hs, os) == doc_rows(memos, hs.skip(i as int), os),
            decreases n - i,
        {
            let m = self.ref_at(i);
            let mut j: usize = 0;
            while j < k
                invariant
                    slab.wf(),
                    memos == slab.memos(),
                    os == other@.refs(),
                    hs == self@.refs(),
                    n == hs.len(),
                    i < n,
                    m == hs[i as int],
                    doc_rows(memos, hs, os) == doc_rows(memos, hs.skip(i as int), os),
                    k == os.len(),
                    j <= k,
                    forall|q: int|
                        0 <= q < j ==> #[trigger] os[q] == m || (m.memo_id < memos.len() && descends(
                            memos,
                            m.memo_id,
                            os[q],
                        )),
                decreases k - j,
            {
                let o = other.ref_at(j);
                if m == o {
                } else {
                    match m.descends(&o, slab) {
                        Ok(d) => {
                            if !d {
                                proof {
                                    assert(doc_row(memos, m, os) == Some(false));
                                    assert(hs.skip(i as int)[0] == m);
                                }
                                return Ok(false);
                            }
                        },
                        Err(e) => {
                            proof {
                                assert(doc_row(memos, m, os) is None);
                                assert(hs.skip(i as int)[0] == m);
                            }
                            return Err(e);
                        },
                    }
                }
                j = j + 1;
            }
            proof {
                assert(doc_row(memos, m, os) == Some(true));
                assert(hs.skip(i as int)[0] == m);
                assert(hs.skip(i as int).drop_first() =~= hs.skip(i + 1));
            }
            i = i + 1;
        }
        proof {
            assert(hs.skip(n as int) =~= Seq::<MemoRef>::empty());
        }
        Ok(true)
    }

    /// Whether every memo of the head is fully materialized; the slab must
    /// hold every memo of the head.
    pub fn is_fully_materialized(&self, slab: &Slab) -> (r: bool)
        requires
            slab.wf(),
            ids_found(slab.memos(), self@.refs()),
        ensures
            r == forall|k: int|
                0 <= k < self@.refs().len() ==> slab.memos()[(#[trigger] self@.refs()[k]).memo_id as int].body is FullyMaterialized,
    {
        let n = self.len();
        let mut i: usize = 0;
        while i < n
            invariant
                slab.wf(),
                ids_found(slab.memos(), self@.refs()),
                n == self@.refs().len(),
                i <= n,
                forall|k: int|
                    0 <= k < i ==> slab.memos()[(#[trigger] self@.refs()[k]).memo_id as int].body is FullyMaterialized,
            decreases n - i,
        {
            let m = self.ref_at(i);
            match slab.get_memo(&m) {
                Ok(memo) => {
                    match &memo.body {
                        MemoBody::FullyMaterialized { .. } => {},
                        _ => {
                            return false;
                        },
                    }
                },
                Err(_) => {
                    proof { assert(false); }
                    return false;
                },
            }
            i = i + 1;
        }
        true
    }
}

} // verus!
