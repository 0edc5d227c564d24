use vstd::prelude::*;

use std::collections::VecDeque;

use crate::error::RetrieveError;
use crate::memorefhead::MemoRefHead;
use crate::slab::{descends, head_below, memos_wf, Memo, MemoRef, MemoView, Slab};

verus! {

/// How many memorefs the causal walk from memo `id` visits (counting repeats).
pub open spec fn weight(memos: Seq<MemoView>, id: nat) -> nat
    decreases id, 1nat, 0nat,
{
    if id < memos.len() {
        1 + weight_list(memos, memos[id as int].parents.refs(), id)
    } else {
        1
    }
}

/// The sum of the weights of `refs`; a memoref at or above `bound` counts one.
pub open spec fn weight_list(memos: Seq<MemoView>, refs: Seq<MemoRef>, bound: nat) -> nat
    decreases bound, 0nat, refs.len(),
{
    if refs.len() == 0 {
        0
    } else {
        (if (refs[0].memo_id as nat) < bound {
            weight(memos, refs[0].memo_id as nat)
        } else {
            1nat
        }) + weight_list(memos, refs.drop_first(), bound)
    }
}

/// How many steps the causal walk from `queue` takes.
pub open spec fn queue_weight(memos: Seq<MemoView>, queue: Seq<MemoRef>) -> nat {
    weight_list(memos, queue, memos.len())
}

/// The queue after one step of the causal walk: the first memoref leaves,
/// and the parents of its memo (when the slab holds it) join at the back.
pub open spec fn step_queue(memos: Seq<MemoView>, queue: Seq<MemoRef>) -> Seq<MemoRef> {
    if queue[0].memo_id < memos.len() {
        queue.drop_first() + memos[queue[0].memo_id as int].parents.refs()
    } else {
        queue.drop_first()
    }
}

pub proof fn lemma_weight_list_concat(memos: Seq<MemoView>, a: Seq<MemoRef>, b: Seq<MemoRef>, bound: nat)
    ensures
        weight_list(memos, a + b, bound) == weight_list(memos, a, bound) + weight_list(memos, b, bound),
    decreases a.len(),
{
    if a.len() == 0 {
        assert(a + b =~= b);
    } else {
        assert((a + b).drop_first() =~= a.drop_first() + b);
        assert((a + b)[0] == a[0]);
        lemma_weight_list_concat(memos, a.drop_first(), b, bound);
    }
}

pub proof fn lemma_weight_list_bound(memos: Seq<MemoView>, refs: Seq<MemoRef>, b1: nat, b2: nat)
    requires
        forall|k: int| 0 <= k < refs.len() ==> (#[trigger] refs[k]).memo_id < b1 && refs[k].memo_id < b2,
    ensures
        weight_list(memos, refs, b1) == weight_list(memos, refs, b2),
    decreases refs.len(),
{
    if refs.len() > 0 {
        assert(refs[0].memo_id < b1);
        lemma_weight_list_bound(memos, refs.drop_first(), b1, b2);
    }
}

/// Each step of the causal walk lowers the queue's weight by one.
pub proof fn lemma_step_weight(memos: Seq<MemoView>, queue: Seq<MemoRef>)
    requires
        memos_wf(memos),
        queue.len() > 0,
    ensures
        queue_weight(memos, step_queue(memos, queue)) + 1 == queue_weight(memos, queue),
{
    let q0 = queue[0];
    let rest = queue.drop_first();
    if q0.memo_id < memos.len() {
        let ps = memos[q0.memo_id as int].parents.refs();
        assert(head_below(memos, memos[q0.memo_id as int].parents, q0.memo_id as int));
        assert forall|k: int| 0 <= k < ps.len() implies (#[trigger] ps[k]).memo_id < q0.memo_id
            && ps[k].memo_id < memos.len() by {
        }
        lemma_weight_list_bound(memos, ps, q0.memo_id as nat, memos.len());
        lemma_weight_list_concat(memos, rest, ps, memos.len());
        assert(weight(memos, q0.memo_id as nat) == 1 + weight_list(memos, ps, q0.memo_id as nat));
        assert(weight_list(memos, queue, memos.len()) == weight(memos, q0.memo_id as nat) + weight_list(memos, rest, memos.len()));
        assert(step_queue(memos, queue) == rest + ps);
    } else {
        assert(weight_list(memos, queue, memos.len()) == 1 + weight_list(memos, rest, memos.len()));
    }
}

/// The memorefs that the causal walk from `queue` visits, in order: a
/// breadth-first walk from the head through the parents of each memo, in
/// which a memo reached along two paths comes twice.
pub open spec fn causal_seq(memos: Seq<MemoView>, queue: Seq<MemoRef>) -> Seq<MemoRef>
    decreases queue_weight(memos, queue),
{
    if queue.len() == 0 || !memos_wf(memos) {
        Seq::empty()
    } else {
        proof {
            lemma_step_weight(memos, queue);
        }
        seq![queue[0]] + causal_seq(memos, step_queue(memos, queue))
    }
}

/// The breadth-first walk over the memos of a head: from the head through
/// the parents of each memo, a memo reached along two paths coming twice.
pub struct BreadthWalk {
    queue: VecDeque<MemoRef>,
}

impl View for BreadthWalk {
    type V = Seq<MemoRef>;

    closed spec fn view(&self) -> Seq<MemoRef> {
        self.queue@
    }
}

impl BreadthWalk {
    /// A walk that starts at the memorefs of a head.
    pub fn from_head(head: &MemoRefHead) -> (r: BreadthWalk)
        ensures
            r@ == head@.refs(),
    {
        let mut queue: VecDeque<MemoRef> = VecDeque::new();
        let n = head.len();
        let mut i: usize = 0;
        while i < n
            invariant
                n == head@.refs().len(),
                i <= n,
                queue@ == head@.refs().take(i as int),
            decreases n - i,
        {
            queue.push_back(head.ref_at(i));
            proof {
                assert(head@.refs().take(i + 1) =~= head@.refs().take(i as int).push(head@.refs()[i as int]));
            }
            i = i + 1;
        }
        proof {
            assert(head@.refs().take(n as int) =~= head@.refs());
        }
        BreadthWalk { queue }
    }

    /// The next memo of the walk: the memo of the first queued memoref, whose
    /// parents then join the queue; `NotFound` when the slab does not hold it.
    pub fn next<'a>(&mut self, slab: &'a Slab) -> (r: Option<Result<&'a Memo, RetrieveError>>)
        requires
            slab.wf(),
        ensures
            old(self)@.len() == 0 ==> r is None && final(self)@ == old(self)@,
            old(self)@.len() > 0 ==> {
                &&& final(self)@ == step_queue(slab.memos(), old(self)@)
                &&& causal_seq(slab.memos(), old(self)@) == seq![old(self)@[0]] + causal_seq(
                    slab.memos(),
                    final(self)@,
                )
                &&& queue_weight(slab.memos(), final(self)@) < queue_weight(slab.memos(), old(self)@)
                &&& old(self)@[0].memo_id < slab.memos().len() ==> (r matches Some(Ok(m)) && m@
                    == slab.memos()[old(self)@[0].memo_id as int])
                &&& old(self)@[0].memo_id >= slab.memos().len() ==> r == Some(
                    Err::<&Memo, RetrieveError>(RetrieveError::NotFound),
                )
            },
    {
        let ghost memos = slab.memos();
        let ghost q = self.queue@;
        match self.queue.pop_front() {
            None => None,
            Some(memoref) => {
                proof {
                    assert(self.queue@ =~= q.drop_first());
                    lemma_step_weight(memos, q);
                }
                match slab.get_memo(&memoref) {
                    Ok(memo) => {
                        let n = memo.parents.len();
                        let mut i: usize = 0;
                        while i < n
                            invariant
                                n == memo.parents@.refs().len(),
                                i <= n,
                                self.queue@ == q.drop_first() + memo.parents@.refs().take(i as int),
                            decreases n - i,
                        {
                            self.queue.push_back(memo.parents.ref_at(i));
                            proof {
                                assert(memo.parents@.refs().take(i + 1) =~= memo.parents@.refs().take(i as int).push(memo.parents@.refs()[i as int]));
                                assert(q.drop_first() + memo.parents@.refs().take(i + 1) =~= (q.drop_first() + memo.parents@.refs().take(i as int)).push(memo.parents@.refs()[i as int]));
                            }
                            i = i + 1;
                        }
                        proof {
                            assert(memo.parents@.refs().take(n as int) =~= memo.parents@.refs());
                            assert(self.queue@ =~= step_queue(memos, q));
                        }
                        Some(Ok(memo))
                    },
                    Err(e) => {
                        proof {
                            assert(self.queue@ =~= step_queue(memos, q));
                        }
                        Some(Err(e))
                    },
                }
            },
        }
    }
}


/// The first memoref of a queue is the first the walk visits.
proof fn lemma_causal_seq_step(memos: Seq<MemoView>, q: Seq<MemoRef>)
    requires
        memos_wf(memos),
        q.len() > 0,
    ensures
        causal_seq(memos, q) == seq![q[0]] + causal_seq(memos, step_queue(memos, q)),
{
    lemma_step_weight(memos, q);
}

/// The walk visits every memoref of its queue.
proof fn lemma_queue_visited(memos: Seq<MemoView>, q: Seq<MemoRef>, y: MemoRef)
    requires
        memos_wf(memos),
        q.contains(y),
    ensures
        causal_seq(memos, q).contains(y),
    decreases queue_weight(memos, q),
{
    lemma_causal_seq_step(memos, q);
    lemma_step_weight(memos, q);
    let c = causal_seq(memos, q);
    if q[0] == y {
        assert(c[0] == y);
    } else {
        let i = choose|i: int| 0 <= i < q.len() && q[i] == y;
        let st = step_queue(memos, q);
        assert(st[i - 1] == y);
        lemma_queue_visited(memos, st, y);
        let j = choose|j: int| 0 <= j < causal_seq(memos, st).len() && causal_seq(memos, st)[j] == y;
        assert(c[j + 1] == y);
    }
}

/// The walk visits the parents of every memo it visits that the slab holds.
proof fn lemma_visited_parents(memos: Seq<MemoView>, q: Seq<MemoRef>, x: MemoRef, p: MemoRef)
    requires
        memos_wf(memos),
        causal_seq(memos, q).contains(x),
        x.memo_id < memos.len(),
        memos[x.memo_id as int].parents.refs().contains(p),
    ensures
        causal_seq(memos, q).contains(p),
    decreases queue_weight(memos, q),
{
    lemma_causal_seq_step(memos, q);
    lemma_step_weight(memos, q);
    let c = causal_seq(memos, q);
    let st = step_queue(memos, q);
    let ps = memos[x.memo_id as int].parents.refs();
    if q[0] == x {
        let k = choose|k: int| 0 <= k < ps.len() && ps[k] == p;
        assert(st == q.drop_first() + ps);
        assert(st[q.len() - 1 + k] == p);
        lemma_queue_visited(memos, st, p);
    } else {
        let i = choose|i: int| 0 <= i < c.len() && c[i] == x;
        assert(causal_seq(memos, st)[i - 1] == x);
        lemma_visited_parents(memos, st, x, p);
    }
    let j = choose|j: int| 0 <= j < causal_seq(memos, st).len() && causal_seq(memos, st)[j] == p;
    assert(c[j + 1] == p);
}

/// `c` is a memo of `r` that the slab holds and that has `p` among its parents.
pub open spec fn child_in(memos: Seq<MemoView>, r: Set<MemoRef>, p: MemoRef, c: MemoRef) -> bool {
    &&& r.contains(c)
    &&& c.memo_id < memos.len()
    &&& memos[c.memo_id as int].parents.refs().contains(p)
}

/// Every memo of `r` that has `p` among its parents is in `done`.
pub open spec fn ready_in(memos: Seq<MemoView>, r: Set<MemoRef>, done: Seq<MemoRef>, p: MemoRef) -> bool {
    forall|c: MemoRef| #[trigger] child_in(memos, r, p, c) ==> done.contains(c)
}

/// No memoref of `s` comes after one that it descends.
pub open spec fn descendants_first(memos: Seq<MemoView>, s: Seq<MemoRef>) -> bool {
    forall|i: int, j: int| 0 <= i < j < s.len() ==> !descends(memos, (#[trigger] s[j]).memo_id, #[trigger] s[i])
}

/// A memo of `r` that descends a memo of `done` is in `done`, when `done`
/// holds, with each of its memos, the memos of `r` that have it as a parent.
proof fn lemma_done_downward(memos: Seq<MemoView>, r: Set<MemoRef>, done: Seq<MemoRef>, y: MemoRef, z: MemoRef)
    requires
        memos_wf(memos),
        forall|x: MemoRef, p: MemoRef| r.contains(x) && x.memo_id < memos.len() && #[trigger] memos[x.memo_id as int].parents.refs().contains(p) ==> r.contains(p),
        forall|w: MemoRef, c: MemoRef| done.contains(w) && #[trigger] child_in(memos, r, w, c) ==> done.contains(c),
        r.contains(y),
        done.contains(z),
        descends(memos, y.memo_id, z),
    ensures
        done.contains(y),
    decreases y.memo_id,
{
    let ps = memos[y.memo_id as int].parents.refs();
    assert(head_below(memos, memos[y.memo_id as int].parents, y.memo_id as int));
    let i = choose|i: int| 0 <= i < ps.len() && (#[trigger] ps[i] == z || (ps[i].memo_id < y.memo_id && descends(memos, ps[i].memo_id, z)));
    let p = ps[i];
    assert(ps.contains(p));
    assert(r.contains(p));
    if p != z {
        lemma_done_downward(memos, r, done, p, z);
    }
    assert(child_in(memos, r, p, y));
}

/// Among the memorefs of `all[..k]` not in `done`, one whose memo id is largest.
proof fn lemma_max_pending(all: Seq<MemoRef>, done: Seq<MemoRef>, k: int) -> (m: int)
    requires
        0 <= k <= all.len(),
        exists|i: int| 0 <= i < k && !done.contains(#[trigger] all[i]),
    ensures
        0 <= m < k,
        !done.contains(all[m]),
        forall|i: int| 0 <= i < k && !done.contains(#[trigger] all[i]) ==> all[i].memo_id <= all[m].memo_id,
    decreases k,
{
    if exists|i: int| 0 <= i < k - 1 && !done.contains(#[trigger] all[i]) {
        let m0 = lemma_max_pending(all, done, k - 1);
        if !done.contains(all[k - 1]) && all[k - 1].memo_id > all[m0].memo_id {
            k - 1
        } else {
            m0
        }
    } else {
        k - 1
    }
}

/// The memorefs of `s`, each at its first occurrence.
pub open spec fn first_occurrences(s: Seq<MemoRef>) -> Seq<MemoRef>
    decreases s.len(),
{
    if s.len() == 0 {
        Seq::empty()
    } else {
        let d = first_occurrences(s.drop_last());
        if d.contains(s.last()) {
            d
        } else {
            d.push(s.last())
        }
    }
}

/// The parents of the memo of `x`, when the slab holds it; none otherwise.
pub open spec fn parents_of(memos: Seq<MemoView>, x: MemoRef) -> Seq<MemoRef> {
    if x.memo_id < memos.len() {
        memos[x.memo_id as int].parents.refs()
    } else {
        Seq::empty()
    }
}

/// The memorefs of `s` that are ready with nothing done, last first: the
/// stack that the walk starts from, with the first of them on top.
pub open spec fn ready_stack(memos: Seq<MemoView>, r: Set<MemoRef>, s: Seq<MemoRef>) -> Seq<MemoRef>
    decreases s.len(),
{
    if s.len() == 0 {
        Seq::empty()
    } else {
        ready_stack(memos, r, s.drop_first()) + if ready_in(memos, r, Seq::empty(), s[0]) {
            seq![s[0]]
        } else {
            Seq::<MemoRef>::empty()
        }
    }
}

/// Stack `st` after the parents `ps[..i]` of a memo just done, taken from
/// the last to the first, were pushed when they are not done, not on the
/// stack, and now ready.
pub open spec fn push_ready(
    memos: Seq<MemoView>,
    r: Set<MemoRef>,
    done: Seq<MemoRef>,
    st: Seq<MemoRef>,
    ps: Seq<MemoRef>,
    i: int,
) -> Seq<MemoRef>
    decreases i,
{
    if i <= 0 {
        st
    } else {
        let p = ps[i - 1];
        let st1 = if !done.contains(p) && !st.contains(p) && ready_in(memos, r, done, p) {
            st.push(p)
        } else {
            st
        };
        push_ready(memos, r, done, st1, ps, i - 1)
    }
}

/// The order of the walk from `done` and stack `st`, for at most `fuel`
/// steps: the memo on top of the stack comes next; then those of its
/// parents that it made ready go on the stack, the first parent on top.
pub open spec fn walk_from(
    memos: Seq<MemoView>,
    r: Set<MemoRef>,
    done: Seq<MemoRef>,
    st: Seq<MemoRef>,
    fuel: nat,
) -> Seq<MemoRef>
    decreases fuel,
{
    if fuel == 0 || st.len() == 0 {
        done
    } else {
        let x = st.last();
        let d2 = done.push(x);
        let ps = parents_of(memos, x);
        walk_from(memos, r, d2, push_ready(memos, r, d2, st.drop_last(), ps, ps.len() as int), (fuel - 1) as nat)
    }
}

/// The causal order of the memos that the walk from `roots` reaches: each
/// once, a memo only after all the memos it reaches that descend it; the
/// walk starts from the first of those that nothing descends and, among the
/// memos that may come next, takes the one made ready last.
pub open spec fn causal_walk(memos: Seq<MemoView>, roots: Seq<MemoRef>) -> Seq<MemoRef> {
    let all = first_occurrences(causal_seq(memos, roots));
    let r = all.to_set();
    walk_from(memos, r, Seq::empty(), ready_stack(memos, r, all), all.len())
}

/// Whether `v` holds `x`.
fn holds_ref(v: &Vec<MemoRef>, x: &MemoRef) -> (r: bool)
    ensures
        r == v@.contains(*x),
{
    let mut i: usize = 0;
    while i < v.len()
        invariant
            i <= v@.len(),
            forall|k: int| 0 <= k < i ==> v@[k] != *x,
        decreases v@.len() - i,
    {
        if v[i] == *x {
            proof {
                assert(v@[i as int] == *x);
            }
            return true;
        }
        i = i + 1;
    }
    false
}

/// The memorefs that the causal walk from `head` reaches, each once.
fn reached_refs(head: &MemoRefHead, slab: &Slab) -> (r: Vec<MemoRef>)
    requires
        slab.wf(),
    ensures
        r@.no_duplicates(),
        r@.to_set() == causal_seq(slab.memos(), head@.refs()).to_set(),
        r@ == first_occurrences(causal_seq(slab.memos(), head@.refs())),
{
    let ghost memos = slab.memos();
    let ghost full = causal_seq(memos, head@.refs());
    let mut walk = BreadthWalk::from_head(head);
    let mut all: Vec<MemoRef> = Vec::new();
    let ghost mut seen: Seq<MemoRef> = Seq::empty();
    proof {
        assert(full =~= seen + causal_seq(memos, walk@));
    }
    loop
        invariant
            memos == slab.memos(),
            slab.wf(),
            full == causal_seq(memos, head@.refs()),
            full == seen + causal_seq(memos, walk@),
            all@ == first_occurrences(seen),
            all@.no_duplicates(),
            forall|y: MemoRef| full.contains(y) <==> (all@.contains(y) || causal_seq(memos, walk@).contains(y)),
        decreases queue_weight(memos, walk@),
    {
        let ghost q = walk@;
        if walk.queue.len() == 0 {
            proof {
                assert(causal_seq(memos, q) =~= Seq::<MemoRef>::empty());
                assert(all@.to_set() =~= full.to_set());
                assert(full =~= seen);
            }
            return all;
        }
        let x = walk.queue[0];
        proof {
            assert(x == q[0]);
            lemma_causal_seq_step(memos, q);
        }
        let _ = walk.next(slab);
        proof {
            assert forall|y: MemoRef| causal_seq(memos, q).contains(y) <==> (y == x || causal_seq(memos, walk@).contains(y)) by {
                let c = causal_seq(memos, q);
                let c2 = causal_seq(memos, walk@);
                if c.contains(y) {
                    let i = choose|i: int| 0 <= i < c.len() && c[i] == y;
                    if i > 0 {
                        assert(c2[i - 1] == y);
                    }
                }
                if c2.contains(y) {
                    let j = choose|j: int| 0 <= j < c2.len() && c2[j] == y;
                    assert(c[j + 1] == y);
                }
                if y == x {
                    assert(c[0] == y);
                }
            }
        }
        proof {
            let seen2 = seen.push(x);
            assert(seen2.drop_last() =~= seen);
            assert(seen2.last() == x);
            assert(full =~= seen2 + causal_seq(memos, walk@));
            seen = seen2;
        }
        if !holds_ref(&all, &x) {
            let ghost before = all@;
            all.push(x);
            proof {
                assert forall|a: int, b: int| 0 <= a < b < all@.len() implies all@[a] != all@[b] by {
                    if b == before.len() {
                        assert(before.contains(before[a]));
                    }
                }
                assert forall|y: MemoRef| all@.contains(y) <==> (before.contains(y) || y == x) by {
                    if all@.contains(y) {
                        let i = choose|i: int| 0 <= i < all@.len() && all@[i] == y;
                        if i < before.len() {
                            assert(before[i] == y);
                        }
                    }
                    if before.contains(y) {
                        let i = choose|i: int| 0 <= i < before.len() && before[i] == y;
                        assert(all@[i] == y);
                    }
                    if y == x {
                        assert(all@[before.len() as int] == y);
                    }
                }
            }
        }
    }
}

/// Whether every memo of `all` that has `p` among its parents is in `done`.
fn is_ready(all: &Vec<MemoRef>, done: &Vec<MemoRef>, p: &MemoRef, slab: &Slab) -> (r: bool)
    ensures
        r == ready_in(slab.memos(), all@.to_set(), done@, *p),
{
    let ghost rs = all@.to_set();
    let mut i: usize = 0;
    while i < all.len()
        invariant
            i <= all@.len(),
            rs == all@.to_set(),
            forall|k: int| 0 <= k < i && child_in(slab.memos(), rs, *p, #[trigger] all@[k]) ==> done@.contains(all@[k]),
        decreases all@.len() - i,
    {
        let c = all[i];
        proof {
            assert(rs.contains(c));
        }
        match slab.get_memo(&c) {
            Ok(memo) => {
                let n = memo.parents.len();
                let mut j: usize = 0;
                let mut has = false;
                while j < n
                    invariant
                        n == memo.parents@.refs().len(),
                        j <= n,
                        has == memo.parents@.refs().take(j as int).contains(*p),
                    decreases n - j,
                {
                    let q = memo.parents.ref_at(j);
                    proof {
                        let t = memo.parents@.refs();
                        let t0 = t.take(j as int);
                        let t1 = t.take(j + 1);
                        assert(t1 =~= t0.push(t[j as int]));
                        if t0.contains(*p) {
                            let k = choose|k: int| 0 <= k < t0.len() && t0[k] == *p;
                            assert(t1[k] == *p);
                        }
                        assert(t1[j as int] == t[j as int]);
                        if t1.contains(*p) {
                            let k = choose|k: int| 0 <= k < t1.len() && t1[k] == *p;
                            if k < j {
                                assert(t0[k] == *p);
                            }
                        }
                    }
                    if q == *p {
                        has = true;
                    }
                    j = j + 1;
                }
                proof {
                    assert(memo.parents@.refs().take(n as int) =~= memo.parents@.refs());
                }
                if has && !holds_ref(done, &c) {
                    proof {
                        assert(child_in(slab.memos(), rs, *p, c));
                    }
                    return false;
                }
            },
            Err(_) => {},
        }
        i = i + 1;
    }
    proof {
        assert forall|c: MemoRef| #[trigger] child_in(slab.memos(), rs, *p, c) implies done@.contains(c) by {
            let k = choose|k: int| 0 <= k < all@.len() && all@[k] == c;
        }
    }
    true
}

/// The memorefs that the causal walk from `head` reaches, each once, in
/// causal order: a memo comes only after every memo that descends it; among
/// the memos that may come next, the one made ready last goes first, so
/// that the walk follows a line of descent down until it meets a memo that
/// another line still has to reach.
pub fn causal_order(head: &MemoRefHead, slab: &Slab) -> (r: Vec<MemoRef>)
    requires
        slab.wf(),
    ensures
        r@ == causal_walk(slab.memos(), head@.refs()),
        r@.no_duplicates(),
        r@.to_set() == causal_seq(slab.memos(), head@.refs()).to_set(),
        descendants_first(slab.memos(), r@),
{
    let ghost memos = slab.memos();
    let all = reached_refs(head, slab);
    let ghost rs = all@.to_set();
    proof {
        assert forall|x: MemoRef, p: MemoRef| rs.contains(x) && x.memo_id < memos.len() && #[trigger] memos[x.memo_id as int].parents.refs().contains(p) implies rs.contains(p) by {
            lemma_visited_parents(memos, head@.refs(), x, p);
        }
    }
    let mut done: Vec<MemoRef> = Vec::new();
    let mut stack: Vec<MemoRef> = Vec::new();
    let mut k: usize = all.len();
    while k > 0
        invariant
            memos == slab.memos(),
            k <= all@.len(),
            rs == all@.to_set(),
            all@.no_duplicates(),
            done@.len() == 0,
            stack@.no_duplicates(),
            forall|y: MemoRef| #[trigger] stack@.contains(y) ==> rs.contains(y) && ready_in(memos, rs, done@, y),
            forall|i: int| k <= i < all@.len() && ready_in(memos, rs, done@, #[trigger] all@[i]) ==> stack@.contains(all@[i]),
            forall|y: MemoRef| stack@.contains(y) ==> exists|i: int| k <= i < all@.len() && all@[i] == y,
            stack@ == ready_stack(memos, rs, all@.skip(k as int)),
        decreases k,
    {
        k = k - 1;
        let y = all[k];
        proof {
            assert(all@.skip(k as int).drop_first() =~= all@.skip(k + 1));
            assert(all@.skip(k as int)[0] == y);
            assert(done@ =~= Seq::<MemoRef>::empty());
        }
        if is_ready(&all, &done, &y, slab) {
            let ghost before = stack@;
            stack.push(y);
            proof {
                assert forall|a: int, b: int| 0 <= a < b < stack@.len() implies stack@[a] != stack@[b] by {
                    if b == before.len() && before[a] == y {
                        assert(before.contains(before[a]));
                        let i = choose|i: int| k + 1 <= i < all@.len() && all@[i] == y;
                        assert(all@[i] == all@[k as int]);
                    }
                }
                assert forall|z: MemoRef| #[trigger] stack@.contains(z) implies rs.contains(z) && ready_in(memos, rs, done@, z) by {
                    let i = choose|i: int| 0 <= i < stack@.len() && stack@[i] == z;
                    if i < before.len() {
                        assert(before[i] == z);
                        assert(before.contains(z));
                    } else {
                        assert(z == y);
                        assert(rs.contains(all@[k as int]));
                    }
                }
                assert forall|i: int| k <= i < all@.len() && ready_in(memos, rs, done@, #[trigger] all@[i]) implies stack@.contains(all@[i]) by {
                    if i == k {
                        assert(stack@[before.len() as int] == y);
                    } else {
                        let j = choose|j: int| 0 <= j < before.len() && before[j] == all@[i];
                        assert(stack@[j] == all@[i]);
                    }
                }
                assert forall|z: MemoRef| stack@.contains(z) implies exists|i: int| k <= i < all@.len() && all@[i] == z by {
                    let j = choose|j: int| 0 <= j < stack@.len() && stack@[j] == z;
                    if j < before.len() {
                        assert(before[j] == z);
                        assert(before.contains(z));
                        let i = choose|i: int| k + 1 <= i < all@.len() && all@[i] == z;
                        assert(k <= i < all@.len() && all@[i] == z);
                    } else {
                        assert(all@[k as int] == z);
                    }
                }
            }
        }
    }
    let ghost init = stack@;
    let ghost total = all@.len();
    proof {
        assert(all@.skip(0) =~= all@);
        assert(walk_from(memos, rs, done@, stack@, (total - done@.len()) as nat) == walk_from(
            memos,
            rs,
            Seq::empty(),
            init,
            total as nat,
        )) by {
            assert(done@ =~= Seq::<MemoRef>::empty());
        }
    }
    while stack.len() > 0
        invariant
            memos == slab.memos(),
            slab.wf(),
            total == all@.len(),
            walk_from(memos, rs, done@, stack@, (total - done@.len()) as nat) == walk_from(
                memos,
                rs,
                Seq::empty(),
                init,
                total as nat,
            ),
            rs == all@.to_set(),
            all@.no_duplicates(),
            forall|x: MemoRef, p: MemoRef| rs.contains(x) && x.memo_id < memos.len() && #[trigger] memos[x.memo_id as int].parents.refs().contains(p) ==> rs.contains(p),
            done@.no_duplicates(),
            stack@.no_duplicates(),
            forall|y: MemoRef| #[trigger] stack@.contains(y) ==> rs.contains(y) && !done@.contains(y) && ready_in(memos, rs, done@, y),
            forall|y: MemoRef| done@.contains(y) ==> rs.contains(y),
            forall|w: MemoRef, c: MemoRef| done@.contains(w) && #[trigger] child_in(memos, rs, w, c) ==> done@.contains(c),
            forall|y: MemoRef| rs.contains(y) && !done@.contains(y) && ready_in(memos, rs, done@, y) ==> stack@.contains(y),
            descendants_first(memos, done@),
            done@.len() <= all@.len(),
        decreases all@.len() - done@.len(),
    {
        let ghost stack0 = stack@;
        let ghost done0 = done@;
        let x = stack.pop().unwrap();
        proof {
            assert(stack0.last() == x);
            assert(stack0[stack0.len() - 1] == x);
            assert(stack0.contains(x));
            assert(rs.contains(x) && !done0.contains(x) && ready_in(memos, rs, done0, x));
            assert(stack@ =~= stack0.drop_last());
            assert forall|i: int| 0 <= i < done0.len() implies !descends(memos, x.memo_id, #[trigger] done0[i]) by {
                if descends(memos, x.memo_id, done0[i]) {
                    assert(done0.contains(done0[i]));
                    lemma_done_downward(memos, rs, done0, x, done0[i]);
                }
            }
        }
        done.push(x);
        proof {
            let d = done@;
            assert(d == done0.push(x));
            assert forall|y: MemoRef| d.contains(y) <==> (done0.contains(y) || y == x) by {
                if d.contains(y) {
                    let i = choose|i: int| 0 <= i < d.len() && d[i] == y;
                    if i < done0.len() {
                        assert(done0[i] == y);
                    }
                }
                if done0.contains(y) {
                    let i = choose|i: int| 0 <= i < done0.len() && done0[i] == y;
                    assert(d[i] == y);
                }
                if y == x {
                    assert(d[done0.len() as int] == y);
                }
            }
            assert(d.no_duplicates()) by {
                assert(!done0.contains(x));
                assert forall|a: int, b: int| 0 <= a < b < d.len() implies d[a] != d[b] by {
                    if b == done0.len() {
                        assert(d[b] == x);
                        assert(d[a] == done0[a]);
                        assert(done0.contains(done0[a]));
                    } else {
                        assert(d[a] == done0[a] && d[b] == done0[b]);
                    }
                }
            }
            assert(descendants_first(memos, d)) by {
                assert forall|a: int, b: int| 0 <= a < b < d.len() implies !descends(memos, (#[trigger] d[b]).memo_id, #[trigger] d[a]) by {
                    if b < done0.len() {
                        assert(d[a] == done0[a] && d[b] == done0[b]);
                    } else {
                        assert(d[a] == done0[a]);
                    }
                }
            }
            assert forall|w: MemoRef, c: MemoRef| d.contains(w) && #[trigger] child_in(memos, rs, w, c) implies d.contains(c) by {
                if w == x {
                    assert(done0.contains(c));
                } else {
                    assert(done0.contains(c));
                }
            }
            assert forall|y: MemoRef| #[trigger] stack@.contains(y) implies rs.contains(y) && !d.contains(y) && ready_in(memos, rs, d, y) by {
                let i = choose|i: int| 0 <= i < stack@.len() && stack@[i] == y;
                assert(stack0[i] == y);
                assert(stack0.contains(y));
                assert(y != x) by {
                    assert(stack0[stack0.len() - 1] == x);
                }
                assert forall|c: MemoRef| #[trigger] child_in(memos, rs, y, c) implies d.contains(c) by {
                    assert(done0.contains(c));
                }
            }
            assert(stack@.no_duplicates()) by {
                assert forall|a: int, b: int| 0 <= a < b < stack@.len() implies stack@[a] != stack@[b] by {
                    assert(stack0[a] == stack@[a] && stack0[b] == stack@[b]);
                }
            }
            assert forall|y: MemoRef| rs.contains(y) && !d.contains(y) && ready_in(memos, rs, d, y) implies stack@.contains(y) || (
            x.memo_id < memos.len() && memos[x.memo_id as int].parents.refs().contains(y)) by {
                if ready_in(memos, rs, done0, y) {
                    assert(stack0.contains(y));
                    let i = choose|i: int| 0 <= i < stack0.len() && stack0[i] == y;
                    assert(i != stack0.len() - 1);
                    assert(stack@[i] == y);
                } else {
                    let c = choose|c: MemoRef| #[trigger] child_in(memos, rs, y, c) && !done0.contains(c);
                    assert(d.contains(c));
                    assert(c == x);
                }
            }
            assert(d.to_set().subset_of(rs));
            d.unique_seq_to_set();
            all@.unique_seq_to_set();
            vstd::set_lib::lemma_len_subset(d.to_set(), rs);
            assert(stack0.drop_last() == stack@);
            assert(walk_from(memos, rs, done0, stack0, (total - done0.len()) as nat) == walk_from(
                memos,
                rs,
                d,
                push_ready(memos, rs, d, stack@, parents_of(memos, x), parents_of(memos, x).len() as int),
                (total - d.len()) as nat,
            ));
        }
        let ghost s_popped = stack@;
        match slab.get_memo(&x) {
            Ok(memo) => {
                let ghost ps = memo.parents@.refs();
                proof {
                    assert(ps == memos[x.memo_id as int].parents.refs());
                    assert(ps.take(ps.len() as int) =~= ps);
                    assert(parents_of(memos, x) == ps);
                }
                let mut i: usize = memo.parents.len();
                while i > 0
                    invariant
                        memos == slab.memos(),
                        push_ready(memos, rs, done@, s_popped, ps, ps.len() as int) == push_ready(memos, rs, done@, stack@, ps, i as int),
                        ps == memo.parents@.refs(),
                        ps == memos[x.memo_id as int].parents.refs(),
                        x.memo_id < memos.len(),
                        rs.contains(x),
                        i <= ps.len(),
                        rs == all@.to_set(),
                        forall|x1: MemoRef, p1: MemoRef| rs.contains(x1) && x1.memo_id < memos.len() && #[trigger] memos[x1.memo_id as int].parents.refs().contains(p1) ==> rs.contains(p1),
                        stack@.no_duplicates(),
                        forall|y: MemoRef| #[trigger] stack@.contains(y) ==> rs.contains(y) && !done@.contains(y) && ready_in(memos, rs, done@, y),
                        forall|y: MemoRef| rs.contains(y) && !done@.contains(y) && ready_in(memos, rs, done@, y) ==> stack@.contains(y)
                            || ps.take(i as int).contains(y),
                    decreases i,
                {
                    i = i - 1;
                    let p = memo.parents.ref_at(i);
                    let ghost stack2 = stack@;
                    proof {
                        assert(ps[i as int] == p);
                        assert(ps.contains(p));
                        assert(rs.contains(p));
                    }
                    let ghost want = if !done@.contains(p) && !stack2.contains(p) && ready_in(memos, rs, done@, p) {
                        stack2.push(p)
                    } else {
                        stack2
                    };
                    if !holds_ref(&done, &p) && !holds_ref(&stack, &p) && is_ready(&all, &done, &p, slab) {
                        stack.push(p);
                        proof {
                            assert forall|a: int, b: int| 0 <= a < b < stack@.len() implies stack@[a] != stack@[b] by {
                                if b == stack2.len() {
                                    assert(stack2.contains(stack2[a]));
                                }
                            }
                            assert forall|y: MemoRef| #[trigger] stack@.contains(y) implies rs.contains(y) && !done@.contains(y) && ready_in(memos, rs, done@, y) by {
                                let j = choose|j: int| 0 <= j < stack@.len() && stack@[j] == y;
                                if j < stack2.len() {
                                    assert(stack2[j] == y);
                                    assert(stack2.contains(y));
                                } else {
                                    assert(y == p);
                                }
                            }
                        }
                    }
                    proof {
                        assert(stack@ == want);
                        assert(push_ready(memos, rs, done@, stack2, ps, i + 1) == push_ready(memos, rs, done@, want, ps, i as int));
                        assert forall|y: MemoRef| rs.contains(y) && !done@.contains(y) && ready_in(memos, rs, done@, y) implies stack@.contains(y)
                            || ps.take(i as int).contains(y) by {
                            if stack2.contains(y) {
                                let j = choose|j: int| 0 <= j < stack2.len() && stack2[j] == y;
                                assert(stack@[j] == y);
                            } else {
                                let pt1 = ps.take(i + 1);
                                assert(pt1.contains(y));
                                let j = choose|j: int| 0 <= j < pt1.len() && pt1[j] == y;
                                if j < i {
                                    assert(ps.take(i as int)[j] == y);
                                } else {
                                    assert(y == p);
                                    if stack@.len() > stack2.len() {
                                        assert(stack@[stack2.len() as int] == p);
                                    }
                                }
                            }
                        }
                    }
                }
                proof {
                    assert(ps.take(0) =~= Seq::<MemoRef>::empty());
                }
            },
            Err(_) => {
                proof {
                    assert(parents_of(memos, x) =~= Seq::<MemoRef>::empty());
                }
            },
        }
    }
    proof {
        let d = done@;
        assert forall|y: MemoRef| rs.contains(y) implies d.contains(y) by {
            if exists|i: int| 0 <= i < all@.len() && !d.contains(#[trigger] all@[i]) {
                let m = lemma_max_pending(all@, d, all@.len() as int);
                let y0 = all@[m];
                assert(rs.contains(y0));
                assert(!stack@.contains(y0));
                assert(!ready_in(memos, rs, d, y0));
                let c = choose|c: MemoRef| #[trigger] child_in(memos, rs, y0, c) && !d.contains(c);
                let ic = choose|ic: int| 0 <= ic < all@.len() && all@[ic] == c;
                let pc = memos[c.memo_id as int].parents;
                assert(head_below(memos, pc, c.memo_id as int));
                let kk = choose|kk: int| 0 <= kk < pc.refs().len() && pc.refs()[kk] == y0;
                assert(pc.refs()[kk].memo_id < c.memo_id);
                assert(!d.contains(all@[ic]));
            } else {
                let i = choose|i: int| 0 <= i < all@.len() && all@[i] == y;
                assert(d.contains(all@[i]));
            }
        }
        assert(d.to_set() =~= causal_seq(memos, head@.refs()).to_set());
        assert(walk_from(memos, rs, d, stack@, (total - d.len()) as nat) == d);
        assert(causal_walk(memos, head@.refs()) == walk_from(memos, rs, Seq::empty(), init, total as nat));
    }
    done
}


/// Iterator over the memos of a head in causal order (`causal_walk`): each
/// memo that the walk from the head reaches comes once, and only after every
/// memo that descends it.
pub struct CausalMemoIter {
    order: Vec<MemoRef>,
    pos: usize,
}

impl View for CausalMemoIter {
    type V = Seq<MemoRef>;

    /// The memorefs still to come, in order.
    closed spec fn view(&self) -> Seq<MemoRef> {
        self.order@.skip(self.pos as int)
    }
}

impl CausalMemoIter {
    /// The iterator is well formed: its position is within its order.
    pub closed spec fn wf(&self) -> bool {
        self.pos <= self.order@.len()
    }

    /// An iterator over the memos that the walk from `head` reaches.
    pub fn from_head(head: &MemoRefHead, slab: &Slab) -> (r: CausalMemoIter)
        requires
            slab.wf(),
        ensures
            r.wf(),
            r@ == causal_walk(slab.memos(), head@.refs()),
            r@.no_duplicates(),
            r@.to_set() == causal_seq(slab.memos(), head@.refs()).to_set(),
            descendants_first(slab.memos(), r@),
    {
        let order = causal_order(head, slab);
        let r = CausalMemoIter { order, pos: 0 };
        proof {
            assert(r@ =~= r.order@);
        }
        r
    }

    /// An iterator over the memos that the walk from `memoref` reaches.
    pub fn from_memoref(memoref: &MemoRef, slab: &Slab) -> (r: CausalMemoIter)
        requires
            slab.wf(),
        ensures
            r.wf(),
            r@ == causal_walk(slab.memos(), seq![*memoref]),
            r@.no_duplicates(),
            r@.to_set() == causal_seq(slab.memos(), seq![*memoref]).to_set(),
            descendants_first(slab.memos(), r@),
    {
        let head = memoref.to_head();
        proof {
            assert(head@.refs() =~= seq![*memoref]);
        }
        Self::from_head(&head, slab)
    }

    /// The memo of the next memoref in the order; `NotFound` when the slab
    /// does not hold it; `None` once every memoref has come.
    pub fn next<'a>(&mut self, slab: &'a Slab) -> (r: Option<Result<&'a Memo, RetrieveError>>)
        requires
            old(self).wf(),
        ensures
            final(self).wf(),
            old(self)@.len() == 0 ==> r is None && final(self)@ == old(self)@,
            old(self)@.len() > 0 ==> {
                &&& final(self)@ == old(self)@.drop_first()
                &&& old(self)@[0].memo_id < slab.memos().len() ==> (r matches Some(Ok(m)) && m@
                    == slab.memos()[old(self)@[0].memo_id as int])
                &&& old(self)@[0].memo_id >= slab.memos().len() ==> r == Some(
                    Err::<&Memo, RetrieveError>(RetrieveError::NotFound),
                )
            },
    {
        if self.pos >= self.order.len() {
            return None;
        }
        let m = self.order[self.pos];
        proof {
            assert(self@[0] == m);
        }
        let ghost before = self@;
        self.pos = self.pos + 1;
        proof {
            assert(self@ =~= before.drop_first());
        }
        Some(slab.get_memo(&m))
    }
}

impl MemoRefHead {
    /// The memos of this head in causal order.
    pub fn causal_memo_iter(&self, slab: &Slab) -> (r: CausalMemoIter)
        requires
            slab.wf(),
        ensures
            r.wf(),
            r@ == causal_walk(slab.memos(), self@.refs()),
            r@.no_duplicates(),
            r@.to_set() == causal_seq(slab.memos(), self@.refs()).to_set(),
            descendants_first(slab.memos(), r@),
    {
        CausalMemoIter::from_head(self, slab)
    }
}

} // verus!
