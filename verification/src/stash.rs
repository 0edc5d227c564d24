use vstd::prelude::*;

use crate::causal::causal_seq;
use crate::error::{RetrieveError, WriteError};
use crate::memorefhead::{apply_fold, spec_apply_memoref, spec_descends_or_contains, HeadView, MemoRefHead};
use crate::projection::{link_of, project_edge_in, EdgeLink, LinkView};
use crate::slab::{MemoRef, MemoView, RelationSlotId, Slab, SubjectId, SubjectType};
use crate::text::{decimal, push_decimal};
use vstd::string::StringExecFns;

verus! {

/// Position of an item in the stash's item storage.
pub type ItemId = usize;

/// The number of relation slots that the stash records for a subject.
pub const STASH_RELATION_SLOTS: usize = 256;

/// A subject known to the stash: its head (when resident), the items that
/// its relation slots point to, an edit counter and the number of relation
/// slots of other items that point to it.
pub struct StashItem {
    subject_id: SubjectId,
    head: Option<MemoRefHead>,
    relations: Vec<Option<ItemId>>,
    edit_counter: usize,
    /// Wide enough that the count of pointing slots (at most 256 per item) always fits.
    ref_count: u128,
}

/// The mathematical value of a stash item.
pub struct ItemView {
    pub subject_id: SubjectId,
    pub head: Option<HeadView>,
    pub relations: Seq<Option<ItemId>>,
    pub edit_counter: usize,
    pub ref_count: u128,
}

impl View for StashItem {
    type V = ItemView;

    closed spec fn view(&self) -> ItemView {
        ItemView {
            subject_id: self.subject_id,
            head: match self.head {
                Some(h) => Some(h@),
                None => None,
            },
            relations: self.relations@,
            edit_counter: self.edit_counter,
            ref_count: self.ref_count,
        }
    }
}

/// An optional stash item, by value.
pub open spec fn opt_item_view(o: Option<StashItem>) -> Option<ItemView> {
    match o {
        Some(it) => Some(it@),
        None => None,
    }
}

/// The rank of a subject type in the order of subjects.
pub open spec fn type_rank(t: SubjectType) -> int {
    match t {
        SubjectType::IndexNode => 0,
        SubjectType::Record => 1,
        SubjectType::Anonymous => 2,
    }
}

/// The position of a subject in the order of the stash index: by id, then by type.
pub open spec fn subject_key(s: SubjectId) -> int {
    s.id * 3 + type_rank(s.stype)
}

/// Two subjects with the same key are the same subject.
pub proof fn lemma_subject_key_injective(a: SubjectId, b: SubjectId)
    ensures
        subject_key(a) == subject_key(b) ==> a == b,
{
    if subject_key(a) == subject_key(b) {
        assert(a.id == b.id);
        assert(type_rank(a.stype) == type_rank(b.stype));
    }
}

/// Whether `a` comes before `b` in the order of the stash index.
fn subject_lt(a: &SubjectId, b: &SubjectId) -> (r: bool)
    ensures
        r == (subject_key(*a) < subject_key(*b)),
{
    let ra: u8 = match a.stype {
        SubjectType::IndexNode => 0,
        SubjectType::Record => 1,
        SubjectType::Anonymous => 2,
    };
    let rb: u8 = match b.stype {
        SubjectType::IndexNode => 0,
        SubjectType::Record => 1,
        SubjectType::Anonymous => 2,
    };
    a.id < b.id || (a.id == b.id && ra < rb)
}

/// `items[i]` holds a live item.
pub open spec fn live(items: Seq<Option<ItemView>>, i: int) -> bool {
    0 <= i < items.len() && items[i] is Some
}

/// The index lists subjects in strictly increasing order.
pub open spec fn index_sorted(index: Seq<(SubjectId, ItemId)>) -> bool {
    forall|i: int, j: int|
        0 <= i < j < index.len() ==> subject_key(#[trigger] index[i].0) < subject_key(#[trigger] index[j].0)
}

/// Each index entry names a live item of its subject.
pub open spec fn index_points(items: Seq<Option<ItemView>>, index: Seq<(SubjectId, ItemId)>) -> bool {
    forall|k: int|
        0 <= k < index.len() ==> {
            &&& live(items, #[trigger] index[k].1 as int)
            &&& items[index[k].1 as int].unwrap().subject_id == index[k].0
        }
}

/// Each live item has its entry in the index.
pub open spec fn items_indexed(items: Seq<Option<ItemView>>, index: Seq<(SubjectId, ItemId)>) -> bool {
    forall|i: int|
        #![trigger items[i]]
        live(items, i) ==> exists|k: int|
            0 <= k < index.len() && #[trigger] index[k] == (items[i].unwrap().subject_id, i as ItemId)
}

/// The vacancies are distinct empty positions.
pub open spec fn vacancies_ok(items: Seq<Option<ItemView>>, vac: Seq<ItemId>) -> bool {
    &&& vac.no_duplicates()
    &&& forall|m: int|
        0 <= m < vac.len() ==> (#[trigger] vac[m]) < items.len() && items[vac[m] as int] is None
}

/// Each live item has all its relation slots, and they point to live items.
pub open spec fn relations_ok(items: Seq<Option<ItemView>>) -> bool {
    &&& forall|i: int|
        #![trigger items[i]]
        live(items, i) ==> items[i].unwrap().relations.len() == STASH_RELATION_SLOTS
    &&& forall|i: int, s: int|
        live(items, i) && 0 <= s < items[i].unwrap().relations.len() && (#[trigger] items[i].unwrap().relations[s]) is Some
            ==> live(items, items[i].unwrap().relations[s].unwrap() as int)
}

/// Each resident head is the head of its item's subject, an index node.
pub open spec fn heads_ok(items: Seq<Option<ItemView>>) -> bool {
    forall|i: int|
        #![trigger items[i]]
        live(items, i) && items[i].unwrap().head is Some ==> {
            &&& items[i].unwrap().head.unwrap().subject() == Some(items[i].unwrap().subject_id)
            &&& items[i].unwrap().subject_id.stype == SubjectType::IndexNode
        }
}

/// How many slots of `rels` point to item `t`.
pub open spec fn count_rel(rels: Seq<Option<ItemId>>, t: ItemId) -> nat
    decreases rels.len(),
{
    if rels.len() == 0 {
        0
    } else {
        (if rels[0] == Some(t) {
            1nat
        } else {
            0nat
        }) + count_rel(rels.drop_first(), t)
    }
}

/// How many slots of an (optional) item point to item `t`.
pub open spec fn item_refs(o: Option<ItemView>, t: ItemId) -> nat {
    match o {
        Some(v) => count_rel(v.relations, t),
        None => 0,
    }
}

/// How many slots of live items point to item `t`.
pub open spec fn ref_total(items: Seq<Option<ItemView>>, t: ItemId) -> nat
    decreases items.len(),
{
    if items.len() == 0 {
        0
    } else {
        ref_total(items.drop_last(), t) + item_refs(items.last(), t)
    }
}

/// Each live item counts exactly the slots that point to it.
pub open spec fn counts_ok(items: Seq<Option<ItemView>>) -> bool {
    forall|t: int|
        #![trigger items[t]]
        live(items, t) ==> items[t].unwrap().ref_count == ref_total(items, t as ItemId)
}

/// The well-formedness of the stash's storage, except reference counts.
pub open spec fn structure_ok(
    items: Seq<Option<ItemView>>,
    index: Seq<(SubjectId, ItemId)>,
    vac: Seq<ItemId>,
) -> bool {
    &&& items.len() <= usize::MAX
    &&& index_sorted(index)
    &&& index_points(items, index)
    &&& items_indexed(items, index)
    &&& vacancies_ok(items, vac)
    &&& relations_ok(items)
    &&& heads_ok(items)
}

/// Item `i` is live, of subject `s`, and holds a head.
pub open spec fn live_head(items: Seq<Option<ItemView>>, i: int, s: SubjectId) -> bool {
    &&& live(items, i)
    &&& items[i].unwrap().subject_id == s
    &&& items[i].unwrap().head is Some
}

/// Slot `i` holds a head whose subject is not in `visited`.
pub open spec fn slot_pending(items: Seq<Option<ItemView>>, visited: Seq<SubjectId>, i: int) -> bool {
    &&& live(items, i)
    &&& items[i].unwrap().head is Some
    &&& !visited.contains(items[i].unwrap().subject_id)
}

/// Where relation slot `p` of item `i` has a vacant link `l`, the slot is empty.
pub open spec fn vacant_slot_recorded(items: Seq<Option<ItemView>>, i: int, p: int, l: LinkView) -> bool {
    l is Vacant ==> items[i].unwrap().relations[p] is None
}

/// Where relation slot `p` of item `i` has a link `l` to a subject head, the
/// slot points to a live item of that subject.
pub open spec fn occupied_slot_recorded(items: Seq<Option<ItemView>>, i: int, p: int, l: LinkView) -> bool {
    l matches LinkView::Occupied(_, h) && h is Subject ==> {
        &&& items[i].unwrap().relations[p] is Some
        &&& live(items, items[i].unwrap().relations[p].unwrap() as int)
        &&& items[items[i].unwrap().relations[p].unwrap() as int].unwrap().subject_id == l->Occupied_1.subject().unwrap()
    }
}

/// The resident heads, by subject.
pub open spec fn heads_of(items: Seq<Option<ItemView>>) -> Map<SubjectId, HeadView> {
    Map::new(
        |s: SubjectId| exists|i: int| live_head(items, i, s),
        |s: SubjectId| items[choose|i: int| live_head(items, i, s)].unwrap().head.unwrap(),
    )
}

/// Live items with the same subject are the same item.
pub proof fn lemma_live_unique(
    items: Seq<Option<ItemView>>,
    index: Seq<(SubjectId, ItemId)>,
    i: int,
    j: int,
)
    requires
        items.len() <= usize::MAX,
        index_sorted(index),
        items_indexed(items, index),
        live(items, i),
        live(items, j),
        items[i].unwrap().subject_id == items[j].unwrap().subject_id,
    ensures
        i == j,
{
    let s = items[i].unwrap().subject_id;
    let k1 = choose|k: int| 0 <= k < index.len() && #[trigger] index[k] == (s, i as ItemId);
    let k2 = choose|k: int| 0 <= k < index.len() && #[trigger] index[k] == (s, j as ItemId);
    assert(index[k1] == (s, i as ItemId));
    assert(index[k2] == (s, j as ItemId));
    if k1 < k2 {
        assert(subject_key(index[k1].0) < subject_key(index[k2].0));
    } else if k2 < k1 {
        assert(subject_key(index[k2].0) < subject_key(index[k1].0));
    }
}

/// A live item with a head gives its subject's resident head.
pub proof fn lemma_heads_of_live(
    items: Seq<Option<ItemView>>,
    index: Seq<(SubjectId, ItemId)>,
    i: int,
)
    requires
        items.len() <= usize::MAX,
        index_sorted(index),
        items_indexed(items, index),
        live(items, i),
        items[i].unwrap().head is Some,
    ensures
        heads_of(items).contains_key(items[i].unwrap().subject_id),
        heads_of(items)[items[i].unwrap().subject_id] == items[i].unwrap().head.unwrap(),
{
    let s = items[i].unwrap().subject_id;
    assert(live_head(items, i, s));
    let j = choose|j: int| live_head(items, j, s);
    lemma_live_unique(items, index, i, j);
}

/// A live item without a head: its subject has no resident head.
pub proof fn lemma_heads_of_headless(
    items: Seq<Option<ItemView>>,
    index: Seq<(SubjectId, ItemId)>,
    i: int,
)
    requires
        items.len() <= usize::MAX,
        index_sorted(index),
        items_indexed(items, index),
        live(items, i),
        items[i].unwrap().head is None,
    ensures
        !heads_of(items).contains_key(items[i].unwrap().subject_id),
{
    let s = items[i].unwrap().subject_id;
    if exists|j: int| live_head(items, j, s) {
        let j = choose|j: int| live_head(items, j, s);
        lemma_live_unique(items, index, i, j);
    }
}

/// Changing one slot changes the count of slots that point to `t` accordingly.
pub proof fn lemma_count_rel_update(rels: Seq<Option<ItemId>>, k: int, x: Option<ItemId>, t: ItemId)
    requires
        0 <= k < rels.len(),
    ensures
        count_rel(rels.update(k, x), t) + (if rels[k] == Some(t) { 1int } else { 0int }) == count_rel(rels, t) + (if x
            == Some(t) {
            1int
        } else {
            0int
        }),
    decreases rels.len(),
{
    if k == 0 {
        assert(rels.update(k, x).drop_first() =~= rels.drop_first());
    } else {
        assert(rels.update(k, x).drop_first() =~= rels.drop_first().update(k - 1, x));
        lemma_count_rel_update(rels.drop_first(), k - 1, x, t);
    }
}

/// A slot that points to `t` is counted.
pub proof fn lemma_count_rel_pos(rels: Seq<Option<ItemId>>, k: int, t: ItemId)
    requires
        0 <= k < rels.len(),
        rels[k] == Some(t),
    ensures
        count_rel(rels, t) >= 1,
{
    lemma_count_rel_update(rels, k, None, t);
}

/// At most every slot points to `t`.
pub proof fn lemma_count_rel_le(rels: Seq<Option<ItemId>>, t: ItemId)
    ensures
        count_rel(rels, t) <= rels.len(),
    decreases rels.len(),
{
    if rels.len() > 0 {
        lemma_count_rel_le(rels.drop_first(), t);
    }
}

/// No slot of an empty relation list points anywhere.
pub proof fn lemma_count_rel_none(rels: Seq<Option<ItemId>>, t: ItemId)
    requires
        forall|k: int| 0 <= k < rels.len() ==> #[trigger] rels[k] is None,
    ensures
        count_rel(rels, t) == 0,
    decreases rels.len(),
{
    if rels.len() > 0 {
        assert(rels[0] is None);
        lemma_count_rel_none(rels.drop_first(), t);
    }
}

/// Replacing one item changes the total by the difference of their counts.
pub proof fn lemma_ref_total_update(items: Seq<Option<ItemView>>, i: int, x: Option<ItemView>, t: ItemId)
    requires
        0 <= i < items.len(),
    ensures
        ref_total(items.update(i, x), t) + item_refs(items[i], t) == ref_total(items, t) + item_refs(x, t),
    decreases items.len(),
{
    if i == items.len() - 1 {
        assert(items.update(i, x).drop_last() =~= items.drop_last());
    } else {
        assert(items.update(i, x).drop_last() =~= items.drop_last().update(i, x));
        lemma_ref_total_update(items.drop_last(), i, x, t);
    }
}

/// Appending an item adds its count.
pub proof fn lemma_ref_total_push(items: Seq<Option<ItemView>>, x: Option<ItemView>, t: ItemId)
    ensures
        ref_total(items.push(x), t) == ref_total(items, t) + item_refs(x, t),
{
    assert(items.push(x).drop_last() =~= items);
}

/// The total counts at least the slots of any one item.
pub proof fn lemma_ref_total_ge(items: Seq<Option<ItemView>>, i: int, t: ItemId)
    requires
        0 <= i < items.len(),
    ensures
        ref_total(items, t) >= item_refs(items[i], t),
    decreases items.len(),
{
    if i < items.len() - 1 {
        lemma_ref_total_ge(items.drop_last(), i, t);
    }
}

/// With 256 slots per live item, the total is at most 256 per item.
pub proof fn lemma_ref_total_bound(items: Seq<Option<ItemView>>, t: ItemId)
    requires
        forall|i: int|
            #![trigger items[i]]
            live(items, i) ==> items[i].unwrap().relations.len() == STASH_RELATION_SLOTS,
    ensures
        ref_total(items, t) <= STASH_RELATION_SLOTS * items.len(),
    decreases items.len(),
{
    if items.len() > 0 {
        let d = items.drop_last();
        assert forall|i: int| #![trigger d[i]] live(d, i) implies d[i].unwrap().relations.len() == STASH_RELATION_SLOTS by {
            assert(d[i] == items[i]);
        }
        lemma_ref_total_bound(d, t);
        match items.last() {
            Some(v) => {
                assert(items[items.len() - 1] == items.last());
                lemma_count_rel_le(v.relations, t);
            },
            None => {},
        }
    }
}

/// Two items agree on subject, head and relations.
pub open spec fn same_item(a: ItemView, b: ItemView) -> bool {
    &&& a.subject_id == b.subject_id
    &&& a.head == b.head
    &&& a.relations == b.relations
}

/// Two item storages differ at most in counters.
pub open spec fn same_shape(a: Seq<Option<ItemView>>, b: Seq<Option<ItemView>>) -> bool {
    &&& a.len() == b.len()
    &&& forall|i: int|
        #![trigger a[i]]
        #![trigger b[i]]
        0 <= i < a.len() ==> (a[i] is Some <==> b[i] is Some) && (a[i] is Some ==> same_item(
            a[i].unwrap(),
            b[i].unwrap(),
        ))
}

/// Every live item of `new` other than `e` was live in `old` as the same item,
/// and every item of `old` other than `e` that holds a head is still live in `new`.
pub open spec fn keeps(old: Seq<Option<ItemView>>, new: Seq<Option<ItemView>>, e: int) -> bool {
    &&& old.len() <= new.len()
    &&& forall|i: int|
        #![trigger new[i]]
        live(new, i) && i != e ==> live(old, i) && same_item(old[i].unwrap(), new[i].unwrap())
    &&& forall|i: int|
        #![trigger old[i]]
        live(old, i) && i != e && old[i].unwrap().head is Some ==> live(new, i)
}

/// Items live in both storages keep their edit counters.
pub open spec fn counters_kept(a: Seq<Option<ItemView>>, b: Seq<Option<ItemView>>) -> bool {
    forall|i: int| #![trigger b[i]] live(a, i) && live(b, i) ==> b[i].unwrap().edit_counter == a[i].unwrap().edit_counter
}

/// Counters do not take part in the structure.
pub proof fn lemma_shape_structure(
    a: Seq<Option<ItemView>>,
    b: Seq<Option<ItemView>>,
    index: Seq<(SubjectId, ItemId)>,
    vac: Seq<ItemId>,
)
    requires
        same_shape(a, b),
        structure_ok(a, index, vac),
    ensures
        structure_ok(b, index, vac),
{
    assert forall|k: int| 0 <= k < index.len() implies {
        &&& live(b, #[trigger] index[k].1 as int)
        &&& b[index[k].1 as int].unwrap().subject_id == index[k].0
    } by {
        assert(live(a, index[k].1 as int));
        assert(a[index[k].1 as int] is Some);
    }
    assert forall|i: int| #![trigger b[i]] live(b, i) implies exists|k: int|
        0 <= k < index.len() && #[trigger] index[k] == (b[i].unwrap().subject_id, i as ItemId) by {
        assert(a[i] is Some);
        assert(live(a, i));
    }
    assert forall|m: int| 0 <= m < vac.len() implies (#[trigger] vac[m]) < b.len() && b[vac[m] as int] is None by {
        assert(a[vac[m] as int] is None);
    }
    assert forall|i: int| #![trigger b[i]] live(b, i) implies b[i].unwrap().relations.len() == STASH_RELATION_SLOTS by {
        assert(a[i] is Some);
        assert(live(a, i));
    }
    assert forall|i: int, s: int|
        live(b, i) && 0 <= s < b[i].unwrap().relations.len() && (#[trigger] b[i].unwrap().relations[s]) is Some
            implies live(b, b[i].unwrap().relations[s].unwrap() as int) by {
        assert(a[i] is Some);
        assert(live(a, i));
        assert(a[i].unwrap().relations[s] == b[i].unwrap().relations[s]);
        let t = b[i].unwrap().relations[s].unwrap() as int;
        assert(live(a, t));
        assert(a[t] is Some);
    }
    assert forall|i: int| #![trigger b[i]] live(b, i) && b[i].unwrap().head is Some implies {
        &&& b[i].unwrap().head.unwrap().subject() == Some(b[i].unwrap().subject_id)
        &&& b[i].unwrap().subject_id.stype == SubjectType::IndexNode
    } by {
        assert(a[i] is Some);
        assert(live(a, i));
    }
}

/// Counters do not take part in the counts of pointing slots.
pub proof fn lemma_shape_ref_total(a: Seq<Option<ItemView>>, b: Seq<Option<ItemView>>, t: ItemId)
    requires
        same_shape(a, b),
    ensures
        ref_total(a, t) == ref_total(b, t),
    decreases a.len(),
{
    if a.len() > 0 {
        let da = a.drop_last();
        let db = b.drop_last();
        assert forall|i: int| #![trigger da[i]] #![trigger db[i]] 0 <= i < da.len() implies (da[i] is Some <==> db[i] is Some) && (da[i] is Some ==> same_item(
            da[i].unwrap(),
            db[i].unwrap(),
        )) by {
            assert(da[i] == a[i]);
            assert(db[i] == b[i]);
        }
        lemma_shape_ref_total(da, db, t);
        assert(a[a.len() - 1] == a.last());
        assert(b[b.len() - 1] == b.last());
    }
}

/// Two item storages agree on which items are live, and on their subjects and heads.
pub open spec fn head_shape(a: Seq<Option<ItemView>>, b: Seq<Option<ItemView>>) -> bool {
    &&& a.len() == b.len()
    &&& forall|i: int|
        #![trigger a[i]]
        #![trigger b[i]]
        0 <= i < a.len() ==> (a[i] is Some <==> b[i] is Some) && (a[i] is Some ==> a[i].unwrap().subject_id
            == b[i].unwrap().subject_id && a[i].unwrap().head == b[i].unwrap().head)
}

/// Storages that agree on live items, subjects and heads have the same resident heads.
pub proof fn lemma_shape_heads(a: Seq<Option<ItemView>>, b: Seq<Option<ItemView>>, index: Seq<(SubjectId, ItemId)>)
    requires
        head_shape(a, b),
        a.len() <= usize::MAX,
        index_sorted(index),
        items_indexed(a, index),
    ensures
        heads_of(a) == heads_of(b),
{
    assert forall|i: int, s: SubjectId| live_head(a, i, s) <==> live_head(b, i, s) by {
        if 0 <= i < a.len() {
            assert(a[i] is Some <==> b[i] is Some);
        }
    }
    assert forall|s: SubjectId| #[trigger] heads_of(a).contains_key(s) implies heads_of(b).contains_key(s)
        && heads_of(a)[s] == heads_of(b)[s] by {
        let i = choose|i: int| live_head(a, i, s);
        assert(live_head(b, i, s));
        let j = choose|j: int| live_head(b, j, s);
        assert(live_head(a, j, s));
        assert(a[i] is Some);
        assert(b[j] is Some);
        assert(a[j] is Some);
        lemma_live_unique(a, index, i, j);
    }
    assert(heads_of(a) =~= heads_of(b));
}

/// Where `keeps` holds and item `e` holds no head before or after, the resident heads are the same.
pub proof fn lemma_keeps_heads(
    old: Seq<Option<ItemView>>,
    old_index: Seq<(SubjectId, ItemId)>,
    new: Seq<Option<ItemView>>,
    new_index: Seq<(SubjectId, ItemId)>,
    e: int,
)
    requires
        old.len() <= usize::MAX,
        new.len() <= usize::MAX,
        index_sorted(old_index),
        items_indexed(old, old_index),
        index_sorted(new_index),
        items_indexed(new, new_index),
        keeps(old, new, e),
        live(old, e) ==> old[e].unwrap().head is None,
        live(new, e) ==> new[e].unwrap().head is None,
    ensures
        heads_of(new) == heads_of(old),
{
    assert forall|s: SubjectId| #[trigger] heads_of(new).contains_key(s) implies heads_of(old).contains_key(s)
        && heads_of(new)[s] == heads_of(old)[s] by {
        let i = choose|i: int| live_head(new, i, s);
        assert(new[i] is Some);
        assert(live(old, i) && same_item(old[i].unwrap(), new[i].unwrap()));
        assert(live_head(old, i, s));
        lemma_heads_of_live(old, old_index, i);
        lemma_heads_of_live(new, new_index, i);
    }
    assert forall|s: SubjectId| #[trigger] heads_of(old).contains_key(s) implies heads_of(new).contains_key(s) by {
        let i = choose|i: int| live_head(old, i, s);
        assert(old[i] is Some);
        assert(live(new, i));
        assert(new[i] is Some);
        assert(live_head(new, i, s));
    }
    assert(heads_of(new) =~= heads_of(old));
}

/// Counting the slots from position `k` on.
pub proof fn lemma_count_rel_skip(rels: Seq<Option<ItemId>>, k: int, t: ItemId)
    requires
        0 <= k < rels.len(),
    ensures
        count_rel(rels.skip(k), t) == (if rels[k] == Some(t) {
            1nat
        } else {
            0nat
        }) + count_rel(rels.skip(k + 1), t),
{
    assert(rels.skip(k).drop_first() =~= rels.skip(k + 1));
    assert(rels.skip(k)[0] == rels[k]);
}

/// No live item points to an item whose count of pointing slots is zero.
pub proof fn lemma_unreferenced(items: Seq<Option<ItemView>>, t: ItemId, i: int, k: int)
    requires
        ref_total(items, t) == 0,
        live(items, i),
        0 <= k < items[i].unwrap().relations.len(),
    ensures
        items[i].unwrap().relations[k] != Some(t),
{
    lemma_ref_total_ge(items, i, t);
    if items[i].unwrap().relations[k] == Some(t) {
        lemma_count_rel_pos(items[i].unwrap().relations, k, t);
    }
}

/// Emptying an unreferenced item, dropping its index entry and recording the
/// vacancy keeps the structure.
pub proof fn lemma_remove_structure(
    items: Seq<Option<ItemView>>,
    index: Seq<(SubjectId, ItemId)>,
    vac: Seq<ItemId>,
    j: int,
    k: int,
)
    requires
        structure_ok(items, index, vac),
        counts_ok(items),
        live(items, j),
        items[j].unwrap().ref_count == 0,
        0 <= k < index.len(),
        index[k] == (items[j].unwrap().subject_id, j as ItemId),
    ensures
        structure_ok(items.update(j, None), index.remove(k), vac.push(j as ItemId)),
{
    let items1 = items.update(j, None);
    let index1 = index.remove(k);
    let vac1 = vac.push(j as ItemId);
    assert(ref_total(items, j as ItemId) == 0);
    assert forall|a: int, b: int| 0 <= a < b < index1.len() implies subject_key(#[trigger] index1[a].0) < subject_key(
        #[trigger] index1[b].0,
    ) by {
        let a0 = if a < k { a } else { a + 1 };
        let b0 = if b < k { b } else { b + 1 };
        assert(index1[a] == index[a0]);
        assert(index1[b] == index[b0]);
        assert(subject_key(index[a0].0) < subject_key(index[b0].0));
    }
    assert forall|m: int| 0 <= m < index1.len() implies {
        &&& live(items1, #[trigger] index1[m].1 as int)
        &&& items1[index1[m].1 as int].unwrap().subject_id == index1[m].0
    } by {
        let m0 = if m < k { m } else { m + 1 };
        assert(index1[m] == index[m0]);
        assert(live(items, index[m0].1 as int));
        if index[m0].1 as int == j {
            if m0 < k {
                assert(subject_key(index[m0].0) < subject_key(index[k].0));
            } else {
                assert(subject_key(index[k].0) < subject_key(index[m0].0));
            }
        }
        assert(items1[index[m0].1 as int] == items[index[m0].1 as int]);
    }
    assert forall|i: int| #![trigger items1[i]] live(items1, i) implies exists|m: int|
        0 <= m < index1.len() && #[trigger] index1[m] == (items1[i].unwrap().subject_id, i as ItemId) by {
        assert(i != j);
        assert(items1[i] == items[i]);
        assert(live(items, i));
        let k2 = choose|k2: int| 0 <= k2 < index.len() && #[trigger] index[k2] == (items[i].unwrap().subject_id, i as ItemId);
        assert(k2 != k);
        let m = if k2 < k { k2 } else { k2 - 1 };
        assert(index1[m] == index[k2]);
    }
    assert forall|m: int| 0 <= m < vac1.len() implies (#[trigger] vac1[m]) < items1.len() && items1[vac1[m] as int] is None by {
        if m < vac.len() {
            assert(vac1[m] == vac[m]);
            assert(items[vac[m] as int] is None);
        }
    }
    assert forall|a: int, b: int| 0 <= a < vac1.len() && 0 <= b < vac1.len() && a != b implies vac1[a] != vac1[b] by {
        if a < vac.len() && b < vac.len() {
            assert(vac1[a] == vac[a] && vac1[b] == vac[b]);
        } else if a < vac.len() {
            assert(items[vac[a] as int] is None);
        } else if b < vac.len() {
            assert(items[vac[b] as int] is None);
        }
    }
    assert forall|i: int| #![trigger items1[i]] live(items1, i) implies items1[i].unwrap().relations.len() == STASH_RELATION_SLOTS by {
        assert(items1[i] == items[i]);
    }
    assert forall|i: int, s: int|
        live(items1, i) && 0 <= s < items1[i].unwrap().relations.len() && (#[trigger] items1[i].unwrap().relations[s]) is Some
            implies live(items1, items1[i].unwrap().relations[s].unwrap() as int) by {
        assert(items1[i] == items[i]);
        assert(live(items, i));
        assert(items[i].unwrap().relations[s] is Some);
        let t = items[i].unwrap().relations[s].unwrap();
        lemma_unreferenced(items, j as ItemId, i, s);
        assert(t as int != j);
        assert(items1[t as int] == items[t as int]);
    }
    assert forall|i: int| #![trigger items1[i]] live(items1, i) && items1[i].unwrap().head is Some implies {
        &&& items1[i].unwrap().head.unwrap().subject() == Some(items1[i].unwrap().subject_id)
        &&& items1[i].unwrap().subject_id.stype == SubjectType::IndexNode
    } by {
        assert(items1[i] == items[i]);
    }
    assert(vac1.no_duplicates());
}

/// No slot points to `t`: none is counted.
pub proof fn lemma_count_rel_absent(rels: Seq<Option<ItemId>>, t: ItemId)
    requires
        forall|q: int| 0 <= q < rels.len() ==> #[trigger] rels[q] != Some(t),
    ensures
        count_rel(rels, t) == 0,
    decreases rels.len(),
{
    if rels.len() > 0 {
        assert(rels[0] != Some(t));
        assert forall|q: int| 0 <= q < rels.drop_first().len() implies #[trigger] rels.drop_first()[q] != Some(t) by {
            assert(rels.drop_first()[q] == rels[q + 1]);
        }
        lemma_count_rel_absent(rels.drop_first(), t);
    }
}

/// No live item points to `t`: the total is zero.
pub proof fn lemma_ref_total_absent(items: Seq<Option<ItemView>>, t: ItemId)
    requires
        forall|i: int, q: int|
            live(items, i) && 0 <= q < items[i].unwrap().relations.len() ==> #[trigger] items[i].unwrap().relations[q]
                != Some(t),
    ensures
        ref_total(items, t) == 0,
    decreases items.len(),
{
    if items.len() > 0 {
        let d = items.drop_last();
        assert forall|i: int, q: int| live(d, i) && 0 <= q < d[i].unwrap().relations.len() implies #[trigger] d[i].unwrap().relations[q]
            != Some(t) by {
            assert(d[i] == items[i]);
            assert(live(items, i));
        }
        lemma_ref_total_absent(d, t);
        let l = items.len() - 1;
        assert(items[l] == items.last());
        match items.last() {
            Some(v) => {
                assert(live(items, l));
                assert forall|q: int| 0 <= q < v.relations.len() implies #[trigger] v.relations[q] != Some(t) by {
                    assert(items[l].unwrap().relations[q] == v.relations[q]);
                }
                lemma_count_rel_absent(v.relations, t);
            },
            None => {},
        }
    }
}

/// A relation list with every slot empty.
fn empty_relations() -> (r: Vec<Option<ItemId>>)
    ensures
        r@.len() == STASH_RELATION_SLOTS,
        forall|q: int| 0 <= q < r@.len() ==> #[trigger] r@[q] is None,
{
    let mut r: Vec<Option<ItemId>> = Vec::new();
    let mut q: usize = 0;
    while q < STASH_RELATION_SLOTS
        invariant
            q <= STASH_RELATION_SLOTS,
            r@.len() == q,
            forall|p: int| 0 <= p < r@.len() ==> #[trigger] r@[p] is None,
        decreases STASH_RELATION_SLOTS - q,
    {
        r.push(None);
        q = q + 1;
    }
    r
}

/// The edit counter of subject `s`'s item while it holds a head, and 0 otherwise.
pub open spec fn edit_count_of(items: Seq<Option<ItemView>>, s: SubjectId) -> usize {
    if exists|i: int| live_head(items, i, s) {
        items[choose|i: int| live_head(items, i, s)].unwrap().edit_counter
    } else {
        0
    }
}

/// The edit counter of a live item with a head is its subject's.
pub proof fn lemma_edit_count_live(items: Seq<Option<ItemView>>, index: Seq<(SubjectId, ItemId)>, i: int)
    requires
        items.len() <= usize::MAX,
        index_sorted(index),
        items_indexed(items, index),
        live(items, i),
        items[i].unwrap().head is Some,
    ensures
        edit_count_of(items, items[i].unwrap().subject_id) == items[i].unwrap().edit_counter,
{
    let s = items[i].unwrap().subject_id;
    assert(live_head(items, i, s));
    let j = choose|j: int| live_head(items, j, s);
    lemma_live_unique(items, index, i, j);
}

/// Replacing a live item by one with the same subject, relations and count
/// keeps the structure; the resident heads change by the item's head.
pub proof fn lemma_update_same_relations(
    items: Seq<Option<ItemView>>,
    index: Seq<(SubjectId, ItemId)>,
    vac: Seq<ItemId>,
    i: int,
    x: ItemView,
)
    requires
        structure_ok(items, index, vac),
        counts_ok(items),
        live(items, i),
        x.subject_id == items[i].unwrap().subject_id,
        x.relations == items[i].unwrap().relations,
        x.ref_count == items[i].unwrap().ref_count,
        x.head matches Some(h) ==> h.subject() == Some(x.subject_id) && x.subject_id.stype == SubjectType::IndexNode,
    ensures
        structure_ok(items.update(i, Some(x)), index, vac),
        counts_ok(items.update(i, Some(x))),
        heads_of(items.update(i, Some(x))) == (match x.head {
            Some(h) => heads_of(items).insert(x.subject_id, h),
            None => heads_of(items).remove(x.subject_id),
        }),
        forall|u: SubjectId| u != x.subject_id ==> edit_count_of(items.update(i, Some(x)), u) == edit_count_of(items, u),
        x.head is Some ==> edit_count_of(items.update(i, Some(x)), x.subject_id) == x.edit_counter,
{
    let items1 = items.update(i, Some(x));
    let s = x.subject_id;
    assert forall|k: int| 0 <= k < index.len() implies {
        &&& live(items1, #[trigger] index[k].1 as int)
        &&& items1[index[k].1 as int].unwrap().subject_id == index[k].0
    } by {
        assert(live(items, index[k].1 as int));
    }
    assert forall|j: int| #![trigger items1[j]] live(items1, j) implies exists|k: int|
        0 <= k < index.len() && #[trigger] index[k] == (items1[j].unwrap().subject_id, j as ItemId) by {
        assert(live(items, j));
    }
    assert forall|m: int| 0 <= m < vac.len() implies (#[trigger] vac[m]) < items1.len() && items1[vac[m] as int] is None by {
        assert(items[vac[m] as int] is None);
    }
    assert forall|j: int| #![trigger items1[j]] live(items1, j) implies items1[j].unwrap().relations.len() == STASH_RELATION_SLOTS by {
        assert(live(items, j));
    }
    assert forall|j: int, q: int|
        live(items1, j) && 0 <= q < items1[j].unwrap().relations.len() && (#[trigger] items1[j].unwrap().relations[q]) is Some
            implies live(items1, items1[j].unwrap().relations[q].unwrap() as int) by {
        assert(live(items, j));
        assert(items1[j].unwrap().relations[q] == items[j].unwrap().relations[q]);
    }
    assert forall|j: int| #![trigger items1[j]] live(items1, j) && items1[j].unwrap().head is Some implies {
        &&& items1[j].unwrap().head.unwrap().subject() == Some(items1[j].unwrap().subject_id)
        &&& items1[j].unwrap().subject_id.stype == SubjectType::IndexNode
    } by {
        assert(live(items, j));
    }
    assert forall|t: int| #![trigger items1[t]] live(items1, t) implies items1[t].unwrap().ref_count == ref_total(items1, t as ItemId) by {
        lemma_ref_total_update(items, i, Some(x), t as ItemId);
        assert(live(items, t));
    }
    let expected = match x.head {
        Some(h) => heads_of(items).insert(s, h),
        None => heads_of(items).remove(s),
    };
    assert forall|u: SubjectId| #[trigger] expected.contains_key(u) implies heads_of(items1).contains_key(u) && heads_of(items1)[u] == expected[u] by {
        if u == s {
            assert(live_head(items1, i, s));
            lemma_heads_of_live(items1, index, i);
        } else {
            let j = choose|j: int| live_head(items, j, u);
            assert(j != i);
            assert(live_head(items1, j, u));
            lemma_heads_of_live(items1, index, j);
            lemma_heads_of_live(items, index, j);
        }
    }
    assert forall|u: SubjectId| #[trigger] heads_of(items1).contains_key(u) implies expected.contains_key(u) by {
        let j = choose|j: int| live_head(items1, j, u);
        if j == i {
        } else {
            assert(live_head(items, j, u));
            if u == s {
                lemma_live_unique(items, index, i, j);
            }
        }
    }
    assert(heads_of(items1) =~= expected);
    assert forall|u: SubjectId| u != s implies edit_count_of(items1, u) == edit_count_of(items, u) by {
        if exists|j: int| live_head(items, j, u) {
            let j = choose|j: int| live_head(items, j, u);
            assert(j != i);
            assert(live_head(items1, j, u));
            lemma_edit_count_live(items, index, j);
            lemma_edit_count_live(items1, index, j);
        } else if exists|j: int| live_head(items1, j, u) {
            let j = choose|j: int| live_head(items1, j, u);
            assert(j != i);
            assert(live_head(items, j, u));
        }
    }
    if x.head is Some {
        lemma_edit_count_live(items1, index, i);
    }
}

/// The subject that slot `p` of subject `s`'s item points to (`None`: the
/// slot is empty, or the stash does not know `s`).
pub open spec fn relation_of(items: Seq<Option<ItemView>>, s: SubjectId, p: int) -> Option<SubjectId> {
    if exists|i: int| live(items, i) && #[trigger] items[i].unwrap().subject_id == s {
        let i = choose|i: int| live(items, i) && #[trigger] items[i].unwrap().subject_id == s;
        match items[i].unwrap().relations[p] {
            Some(t) => Some(items[t as int].unwrap().subject_id),
            None => None,
        }
    } else {
        None
    }
}

/// The slot of an edge link.
pub open spec fn link_slot(l: LinkView) -> int {
    match l {
        LinkView::Vacant(s) => s as int,
        LinkView::Occupied(s, _) => s as int,
    }
}

/// The views of edge links.
pub open spec fn link_views(ls: Seq<EdgeLink>) -> Seq<LinkView> {
    ls.map_values(|l: EdgeLink| l@)
}

/// What the last link of `links` that sets slot `p` makes it point to:
/// `Some(None)` for a vacant link, `Some(Some(t))` for a link to a head of
/// subject `t`; `None` when no link sets slot `p` (a link to a head without
/// a subject sets nothing).
pub open spec fn link_effect(links: Seq<LinkView>, p: int) -> Option<Option<SubjectId>>
    decreases links.len(),
{
    if links.len() == 0 {
        None
    } else {
        match links.last() {
            LinkView::Vacant(q) => if q as int == p {
                Some(None)
            } else {
                link_effect(links.drop_last(), p)
            },
            LinkView::Occupied(q, h) => if q as int == p && h is Subject {
                Some(h.subject())
            } else {
                link_effect(links.drop_last(), p)
            },
        }
    }
}

/// What slot `p` points to after `links`, where it pointed to `prev` before.
pub open spec fn slot_after(links: Seq<LinkView>, p: int, prev: Option<SubjectId>) -> Option<SubjectId> {
    match link_effect(links, p) {
        Some(t) => t,
        None => prev,
    }
}

/// Slot `p` of item `i` points to a live item of the subject that `eff`
/// names, or of `prev` when `eff` is `None` (to nothing for `None`).
pub open spec fn slot_holds(
    items: Seq<Option<ItemView>>,
    i: int,
    p: int,
    eff: Option<Option<SubjectId>>,
    prev: Option<SubjectId>,
) -> bool {
    match (match eff {
        Some(t) => t,
        None => prev,
    }) {
        None => items[i].unwrap().relations[p] is None,
        Some(t) => {
            &&& items[i].unwrap().relations[p] is Some
            &&& live(items, items[i].unwrap().relations[p].unwrap() as int)
            &&& items[items[i].unwrap().relations[p].unwrap() as int].unwrap().subject_id == t
        },
    }
}

/// With one link per slot, in slot order, each slot is set by its own link.
pub proof fn lemma_link_effect_in_order(links: Seq<LinkView>, n: int, p: int)
    requires
        forall|i: int| 0 <= i < links.len() ==> link_slot(#[trigger] links[i]) == i,
        0 <= n <= links.len(),
        0 <= p,
    ensures
        link_effect(links.take(n), p) == if p < n {
            match links[p] {
                LinkView::Vacant(_) => Some(None),
                LinkView::Occupied(_, h) => if h is Subject {
                    Some(h.subject())
                } else {
                    None
                },
            }
        } else {
            None
        },
    decreases n,
{
    if n > 0 {
        let t = links.take(n);
        assert(t.drop_last() =~= links.take(n - 1));
        assert(t.last() == links[n - 1]);
        assert(link_slot(links[n - 1]) == n - 1);
        lemma_link_effect_in_order(links, n - 1, p);
    }
}

/// Where `keeps` holds and item `e`, if still live, kept its subject and
/// relations, every subject that still has an item keeps its relations.
pub proof fn lemma_relation_frame(
    old: Seq<Option<ItemView>>,
    old_index: Seq<(SubjectId, ItemId)>,
    new: Seq<Option<ItemView>>,
    new_index: Seq<(SubjectId, ItemId)>,
    e: int,
    u: SubjectId,
    p: int,
)
    requires
        old.len() <= usize::MAX,
        new.len() <= usize::MAX,
        index_sorted(old_index),
        items_indexed(old, old_index),
        index_sorted(new_index),
        items_indexed(new, new_index),
        relations_ok(new),
        keeps(old, new, e),
        live(new, e) ==> live(old, e) && new[e].unwrap().subject_id == old[e].unwrap().subject_id
            && new[e].unwrap().relations == old[e].unwrap().relations,
        exists|i: int| live(new, i) && #[trigger] new[i].unwrap().subject_id == u,
        0 <= p < STASH_RELATION_SLOTS,
    ensures
        relation_of(new, u, p) == relation_of(old, u, p),
{
    let i = choose|i: int| live(new, i) && #[trigger] new[i].unwrap().subject_id == u;
    assert(new[i] is Some);
    assert(live(old, i) && old[i].unwrap().subject_id == u && old[i].unwrap().relations == new[i].unwrap().relations);
    let i2 = choose|i2: int| live(old, i2) && #[trigger] old[i2].unwrap().subject_id == u;
    lemma_live_unique(old, old_index, i, i2);
    match new[i].unwrap().relations[p] {
        Some(t) => {
            assert(new[i].unwrap().relations.len() == STASH_RELATION_SLOTS);
            assert(live(new, t as int));
            if t as int != e {
                assert(new[t as int] is Some);
            }
        },
        None => {},
    }
}

/// The resident heads after pruning with the edge head `c`: the head of
/// `c`'s subject goes when `c` descends or contains it.
pub open spec fn prune_one(memos: Seq<MemoView>, heads: Map<SubjectId, HeadView>, c: HeadView) -> Map<
    SubjectId,
    HeadView,
> {
    match c {
        HeadView::Subject(sid, _) => if heads.contains_key(sid) && spec_descends_or_contains(memos, c, heads[sid])
            == Some(true) {
            heads.remove(sid)
        } else {
            heads
        },
        _ => heads,
    }
}

/// The resident heads after pruning with the head of every occupied link, in order.
pub open spec fn prune_links(memos: Seq<MemoView>, heads: Map<SubjectId, HeadView>, links: Seq<LinkView>) -> Map<
    SubjectId,
    HeadView,
>
    decreases links.len(),
{
    if links.len() == 0 {
        heads
    } else {
        let h1 = match links[0] {
            LinkView::Occupied(_, c) => prune_one(memos, heads, c),
            LinkView::Vacant(_) => heads,
        };
        prune_links(memos, h1, links.drop_first())
    }
}

/// The edge link of every relation slot of head `h`, projected without context.
pub open spec fn edge_links_spec(memos: Seq<MemoView>, h: HeadView) -> Seq<LinkView> {
    Seq::new(
        STASH_RELATION_SLOTS as nat,
        |p: int| link_of(p as RelationSlotId, project_edge_in(memos, causal_seq(memos, h.refs()), p as RelationSlotId)),
    )
}

/// The head that applying `h` to the stash computes for `h`'s subject, and
/// whether it changed anything (`None`: a memo could not be retrieved).
pub open spec fn applied_head(memos: Seq<MemoView>, heads: Map<SubjectId, HeadView>, h: HeadView) -> Option<
    (HeadView, bool),
> {
    let s = h.subject().unwrap();
    if heads.contains_key(s) {
        let (h1, r) = apply_fold(memos, heads[s], h.refs(), false);
        match r {
            Some(b) => Some((h1, b)),
            None => None,
        }
    } else {
        Some((h, true))
    }
}

/// Applying memorefs to a subject's head keeps it the head of that subject.
pub proof fn lemma_apply_fold_subject(memos: Seq<MemoView>, h: HeadView, news: Seq<MemoRef>, acc: bool)
    requires
        h is Subject,
    ensures
        apply_fold(memos, h, news, acc).0.subject() == h.subject(),
    decreases news.len(),
{
    if news.len() > 0 {
        let (h1, r1) = spec_apply_memoref(memos, h, news[0]);
        assert(h1.subject() == h.subject());
        match r1 {
            None => {},
            Some(b) => {
                lemma_apply_fold_subject(memos, h1, news.drop_first(), acc || b);
            },
        }
    }
}

/// The letter that stands for a subject type in texts.
pub open spec fn type_letter(t: SubjectType) -> char {
    match t {
        SubjectType::IndexNode => 'I',
        SubjectType::Record => 'R',
        SubjectType::Anonymous => 'A',
    }
}

/// The short text of a subject: its type letter and its id, as in `I4`.
pub open spec fn subject_text(s: SubjectId) -> Seq<char> {
    seq![type_letter(s.stype)] + decimal(s.id as nat)
}

/// The texts of the subjects that the non-empty slots of `rels` point to, in slot order.
pub open spec fn rel_texts(items: Seq<Option<ItemView>>, rels: Seq<Option<ItemId>>) -> Seq<Seq<char>>
    decreases rels.len(),
{
    if rels.len() == 0 {
        Seq::empty()
    } else {
        rel_texts(items, rels.drop_last()) + match rels.last() {
            Some(t) => seq![subject_text(items[t as int].unwrap().subject_id)],
            None => Seq::empty(),
        }
    }
}

/// The texts of `parts`, separated by commas.
pub open spec fn join_commas(parts: Seq<Seq<char>>) -> Seq<char>
    decreases parts.len(),
{
    if parts.len() == 0 {
        Seq::empty()
    } else if parts.len() == 1 {
        parts[0]
    } else {
        join_commas(parts.drop_last()) + seq![','] + parts.last()
    }
}

/// The text of an item with a head: its subject, then `>` and the subjects
/// that its relations point to, when there are any.
pub open spec fn item_text(items: Seq<Option<ItemView>>, it: ItemView) -> Seq<char> {
    let rs = rel_texts(items, it.relations);
    subject_text(it.subject_id) + if rs.len() == 0 {
        Seq::<char>::empty()
    } else {
        seq!['>'] + join_commas(rs)
    }
}

/// The texts of the items with a head among the first `n` index entries.
pub open spec fn concise_upto(items: Seq<Option<ItemView>>, index: Seq<(SubjectId, ItemId)>, n: int) -> Seq<Seq<char>>
    decreases n,
{
    if n <= 0 {
        Seq::empty()
    } else {
        let it = items[index[n - 1].1 as int].unwrap();
        concise_upto(items, index, n - 1) + if it.head is Some {
            seq![item_text(items, it)]
        } else {
            Seq::<Seq<char>>::empty()
        }
    }
}

/// The texts of the subjects that slots `0..k` of subject `s` point to,
/// in slot order, where `rel(s, p)` is what slot `p` points to.
pub open spec fn related_texts(rel: spec_fn(SubjectId, int) -> Option<SubjectId>, s: SubjectId, k: int) -> Seq<Seq<char>>
    decreases k,
{
    if k <= 0 {
        Seq::empty()
    } else {
        related_texts(rel, s, k - 1) + match rel(s, k - 1) {
            Some(t) => seq![subject_text(t)],
            None => Seq::empty(),
        }
    }
}

/// The short text of subject `s` with related subjects' texts `rs`: the
/// subject, then `>` and the related subjects, when there are any.
pub open spec fn entry_text(s: SubjectId, rs: Seq<Seq<char>>) -> Seq<char> {
    subject_text(s) + if rs.len() == 0 {
        Seq::<char>::empty()
    } else {
        seq!['>'] + join_commas(rs)
    }
}

/// The short texts of the subjects of `subjects` that have a head in
/// `heads`, in order, with what their relation slots point to (`rel`).
pub open spec fn concise_of(
    subjects: Seq<SubjectId>,
    heads: Map<SubjectId, HeadView>,
    rel: spec_fn(SubjectId, int) -> Option<SubjectId>,
) -> Seq<Seq<char>>
    decreases subjects.len(),
{
    if subjects.len() == 0 {
        Seq::empty()
    } else {
        let s = subjects.last();
        concise_of(subjects.drop_last(), heads, rel) + if heads.contains_key(s) {
            seq![entry_text(s, related_texts(rel, s, STASH_RELATION_SLOTS as int))]
        } else {
            Seq::<Seq<char>>::empty()
        }
    }
}

/// The texts of the non-empty slots of a live item are those of the subjects
/// its subject's relations point to.
proof fn lemma_rel_texts(items: Seq<Option<ItemView>>, index: Seq<(SubjectId, ItemId)>, i: int, k: int)
    requires
        items.len() <= usize::MAX,
        index_sorted(index),
        items_indexed(items, index),
        relations_ok(items),
        live(items, i),
        0 <= k <= STASH_RELATION_SLOTS,
    ensures
        rel_texts(items, items[i].unwrap().relations.take(k)) == related_texts(
            |u: SubjectId, p: int| relation_of(items, u, p),
            items[i].unwrap().subject_id,
            k,
        ),
    decreases k,
{
    let it = items[i].unwrap();
    let rel = |u: SubjectId, p: int| relation_of(items, u, p);
    if k == 0 {
        assert(it.relations.take(0) =~= Seq::<Option<ItemId>>::empty());
    } else {
        lemma_rel_texts(items, index, i, k - 1);
        let rs = it.relations.take(k);
        assert(rs.drop_last() =~= it.relations.take(k - 1));
        assert(rs.last() == it.relations[k - 1]);
        let j = choose|j: int| live(items, j) && #[trigger] items[j].unwrap().subject_id == it.subject_id;
        assert(live(items, i) && items[i].unwrap().subject_id == it.subject_id);
        lemma_live_unique(items, index, i, j);
        assert(rel(it.subject_id, k - 1) == relation_of(items, it.subject_id, k - 1));
    }
}

/// The texts of the first `n` index entries, stated over the stash's
/// subjects, heads and relations.
proof fn lemma_concise_upto(items: Seq<Option<ItemView>>, index: Seq<(SubjectId, ItemId)>, vac: Seq<ItemId>, n: int)
    requires
        structure_ok(items, index, vac),
        0 <= n <= index.len(),
    ensures
        concise_upto(items, index, n) == concise_of(
            index.map_values(|e: (SubjectId, ItemId)| e.0).take(n),
            heads_of(items),
            |u: SubjectId, p: int| relation_of(items, u, p),
        ),
    decreases n,
{
    let subs = index.map_values(|e: (SubjectId, ItemId)| e.0);
    let rel = |u: SubjectId, p: int| relation_of(items, u, p);
    if n == 0 {
        assert(subs.take(0) =~= Seq::<SubjectId>::empty());
    } else {
        lemma_concise_upto(items, index, vac, n - 1);
        assert(subs.take(n).drop_last() =~= subs.take(n - 1));
        let e = index[n - 1];
        assert(subs.take(n).last() == e.0);
        let id = e.1 as int;
        assert(live(items, id) && items[id].unwrap().subject_id == e.0);
        let it = items[id].unwrap();
        assert(it.head is Some <==> heads_of(items).contains_key(e.0)) by {
            if heads_of(items).contains_key(e.0) {
                let j = choose|j: int| live_head(items, j, e.0);
                lemma_live_unique(items, index, id, j);
            }
            if it.head is Some {
                assert(live_head(items, id, e.0));
            }
        }
        lemma_rel_texts(items, index, id, STASH_RELATION_SLOTS as int);
        assert(it.relations.take(STASH_RELATION_SLOTS as int) =~= it.relations);
        assert(item_text(items, it) == entry_text(e.0, related_texts(rel, e.0, STASH_RELATION_SLOTS as int)));
    }
}

/// Appends the short text of a subject.
fn push_subject_text(out: &mut String, s: &SubjectId)
    ensures
        final(out)@ == old(out)@ + subject_text(*s),
{
    let letter = match s.stype {
        SubjectType::IndexNode => {
            proof { reveal_strlit("I"); }
            "I"
        },
        SubjectType::Record => {
            proof { reveal_strlit("R"); }
            "R"
        },
        SubjectType::Anonymous => {
            proof { reveal_strlit("A"); }
            "A"
        },
    };
    out.append(letter);
    push_decimal(out, s.id);
    proof {
        assert(final(out)@ =~= old(out)@ + subject_text(*s));
    }
}

/// Iterates over the resident heads of a stash, each subject once, while the
/// stash may change between steps.
pub struct StashIterator {
    visited: Vec<SubjectId>,
}

impl View for StashIterator {
    type V = Seq<SubjectId>;

    closed spec fn view(&self) -> Seq<SubjectId> {
        self.visited@
    }
}

/// Whether `v` holds `s`.
fn contains_subject(v: &Vec<SubjectId>, s: &SubjectId) -> (r: bool)
    ensures
        r == v@.contains(*s),
{
    let mut i: usize = 0;
    while i < v.len()
        invariant
            i <= v@.len(),
            forall|j: int| 0 <= j < i ==> v@[j] != *s,
        decreases v@.len() - i,
    {
        if v[i] == *s {
            return true;
        }
        i = i + 1;
    }
    false
}

impl StashIterator {
    /// An iterator that has visited no subject yet.
    pub fn new() -> (r: StashIterator)
        ensures
            r@ == Seq::<SubjectId>::empty(),
    {
        StashIterator { visited: Vec::new() }
    }

    /// The head of a subject that holds one and was not visited yet, in the
    /// order of the stash's storage; `None` when every such subject was visited.
    pub fn next(&mut self, stash: &Stash) -> (r: Option<MemoRefHead>)
        requires
            stash.wf(),
        ensures
            r matches Some(h) ==> {
                &&& h@.subject() is Some
                &&& stash.heads().contains_key(h@.subject().unwrap())
                &&& stash.heads()[h@.subject().unwrap()] == h@
                &&& !old(self)@.contains(h@.subject().unwrap())
                &&& final(self)@ == old(self)@.push(h@.subject().unwrap())
            },
            r is None ==> final(self)@ == old(self)@ && forall|s: SubjectId| #[trigger] stash.heads().contains_key(s) ==> old(self)@.contains(s),
            r matches Some(h) ==> exists|i: int|
                #[trigger] stash.pending_slot(old(self)@, i) && stash.slot_subject(i) == h@.subject().unwrap()
                    && forall|j: int| 0 <= j < i ==> !#[trigger] stash.pending_slot(old(self)@, j),
            r is None ==> forall|i: int| !#[trigger] stash.pending_slot(old(self)@, i),
    {
        let ghost items = stash.items_v();
        let n = stash.items.len();
        let mut i: usize = 0;
        while i < n
            invariant
                stash.wf(),
                items == stash.items_v(),
                n == items.len(),
                i <= n,
                self@ == old(self)@,
                forall|j: int| #![trigger items[j]] 0 <= j < i && live(items, j) && items[j].unwrap().head is Some ==> self@.contains(items[j].unwrap().subject_id),
            decreases n - i,
        {
            proof {
                assert(items[i as int] == opt_item_view(stash.items@[i as int]));
            }
            match &stash.items[i] {
                Some(item) => {
                    match &item.head {
                        Some(h) => {
                            if !contains_subject(&self.visited, &item.subject_id) {
                                proof {
                                    lemma_heads_of_live(items, stash.index@, i as int);
                                    assert(stash.pending_slot(old(self)@, i as int));
                                    assert forall|j: int| 0 <= j < i implies !#[trigger] stash.pending_slot(old(self)@, j) by {
                                        if stash.pending_slot(old(self)@, j) {
                                            assert(items[j] is Some);
                                        }
                                    }
                                }
                                self.visited.push(item.subject_id);
                                return Some(h.clone_head());
                            }
                        },
                        None => {},
                    }
                },
                None => {},
            }
            i = i + 1;
        }
        proof {
            assert forall|s: SubjectId| #[trigger] heads_of(items).contains_key(s) implies old(self)@.contains(s) by {
                let j = choose|j: int| live_head(items, j, s);
                assert(items[j] is Some);
            }
            assert forall|j: int| !#[trigger] stash.pending_slot(old(self)@, j) by {
                if stash.pending_slot(old(self)@, j) {
                    assert(items[j] is Some);
                }
            }
        }
        None
    }
}

/// Pruning only removes resident heads.
pub proof fn lemma_prune_links_sub(memos: Seq<MemoView>, heads: Map<SubjectId, HeadView>, links: Seq<LinkView>)
    ensures
        forall|s: SubjectId| #[trigger] prune_links(memos, heads, links).contains_key(s) ==> heads.contains_key(s)
            && prune_links(memos, heads, links)[s] == heads[s],
    decreases links.len(),
{
    if links.len() > 0 {
        let h1 = match links[0] {
            LinkView::Occupied(_, c) => prune_one(memos, heads, c),
            LinkView::Vacant(_) => heads,
        };
        assert forall|s: SubjectId| #[trigger] h1.contains_key(s) implies heads.contains_key(s) && h1[s] == heads[s] by {
            match links[0] {
                LinkView::Occupied(_, c) => {
                    match c {
                        HeadView::Subject(sid, _) => {},
                        _ => {},
                    }
                },
                LinkView::Vacant(_) => {},
            }
        }
        lemma_prune_links_sub(memos, h1, links.drop_first());
        assert(prune_links(memos, heads, links) == prune_links(memos, h1, links.drop_first()));
        assert forall|s: SubjectId| #[trigger] prune_links(memos, heads, links).contains_key(s) implies heads.contains_key(s)
            && prune_links(memos, heads, links)[s] == heads[s] by {
            assert(prune_links(memos, h1, links.drop_first()).contains_key(s));
        }
    }
}

/// Pruning with links none of which is an edge to subject `s` leaves the
/// resident head of `s` as it was.
pub proof fn lemma_prune_links_keeps(memos: Seq<MemoView>, heads: Map<SubjectId, HeadView>, links: Seq<LinkView>, s: SubjectId)
    requires
        forall|k: int| 0 <= k < links.len() ==> !(#[trigger] links[k] matches LinkView::Occupied(_, c) && c.subject() == Some(s)),
    ensures
        prune_links(memos, heads, links).contains_key(s) == heads.contains_key(s),
        heads.contains_key(s) ==> prune_links(memos, heads, links)[s] == heads[s],
    decreases links.len(),
{
    if links.len() > 0 {
        let h1 = match links[0] {
            LinkView::Occupied(_, c) => prune_one(memos, heads, c),
            LinkView::Vacant(_) => heads,
        };
        assert(!(links[0] matches LinkView::Occupied(_, c) && c.subject() == Some(s)));
        assert(h1.contains_key(s) == heads.contains_key(s) && (heads.contains_key(s) ==> h1[s] == heads[s])) by {
            match links[0] {
                LinkView::Occupied(_, c) => {
                    match c {
                        HeadView::Subject(sid, _) => {
                            assert(sid != s);
                        },
                        _ => {},
                    }
                },
                LinkView::Vacant(_) => {},
            }
        }
        assert forall|k: int| 0 <= k < links.drop_first().len() implies !(#[trigger] links.drop_first()[k] matches LinkView::Occupied(_, c) && c.subject() == Some(s)) by {
            assert(links.drop_first()[k] == links[k + 1]);
        }
        lemma_prune_links_keeps(memos, h1, links.drop_first(), s);
    }
}

/// Pruning with `links` removes subject `t` when the link at position `k`
/// holds head `c` of subject `t`, `t`'s resident head (if any) is `c`, and
/// `c` descends or contains itself.
pub proof fn lemma_prune_links_removes(
    memos: Seq<MemoView>,
    heads: Map<SubjectId, HeadView>,
    links: Seq<LinkView>,
    k: int,
    c: HeadView,
    t: SubjectId,
)
    requires
        0 <= k < links.len(),
        links[k] matches LinkView::Occupied(_, c0) && c0 == c,
        c.subject() == Some(t),
        heads.contains_key(t) ==> heads[t] == c,
        spec_descends_or_contains(memos, c, c) == Some(true),
    ensures
        !prune_links(memos, heads, links).contains_key(t),
    decreases links.len(),
{
    let h1 = match links[0] {
        LinkView::Occupied(_, c1) => prune_one(memos, heads, c1),
        LinkView::Vacant(_) => heads,
    };
    assert(h1.contains_key(t) ==> heads.contains_key(t) && h1[t] == heads[t]) by {
        match links[0] {
            LinkView::Occupied(_, c1) => {
                match c1 {
                    HeadView::Subject(sid, _) => {},
                    _ => {},
                }
            },
            LinkView::Vacant(_) => {},
        }
    }
    assert(prune_links(memos, heads, links) == prune_links(memos, h1, links.drop_first()));
    if k == 0 {
        assert(!h1.contains_key(t)) by {
            match c {
                HeadView::Subject(sid, _) => {
                    assert(sid == t);
                },
                _ => {},
            }
        }
        lemma_prune_links_sub(memos, h1, links.drop_first());
    } else {
        assert(links.drop_first()[k - 1] == links[k]);
        lemma_prune_links_removes(memos, h1, links.drop_first(), k - 1, c, t);
    }
}

/// Pruning never changes a resident head, and removes one only where an
/// edge points to its subject and descends or contains it: a head leaves
/// the stash only when another head reaches everything it holds.
pub proof fn lemma_prune_removes_only_covered(
    memos: Seq<MemoView>,
    heads: Map<SubjectId, HeadView>,
    links: Seq<LinkView>,
    s: SubjectId,
)
    ensures
        prune_links(memos, heads, links).contains_key(s) ==> heads.contains_key(s) && prune_links(memos, heads, links)[s]
            == heads[s],
        heads.contains_key(s) && !prune_links(memos, heads, links).contains_key(s) ==> exists|k: int|
            0 <= k < links.len() && (#[trigger] links[k] matches LinkView::Occupied(_, c) && c.subject() == Some(s)
                && spec_descends_or_contains(memos, c, heads[s]) == Some(true)),
    decreases links.len(),
{
    if links.len() > 0 {
        let h1 = match links[0] {
            LinkView::Occupied(_, c) => prune_one(memos, heads, c),
            LinkView::Vacant(_) => heads,
        };
        lemma_prune_removes_only_covered(memos, h1, links.drop_first(), s);
        assert(h1.contains_key(s) ==> heads.contains_key(s) && h1[s] == heads[s]);
        if heads.contains_key(s) && !prune_links(memos, heads, links).contains_key(s) {
            if !h1.contains_key(s) {
                assert(links[0] matches LinkView::Occupied(_, c) && c.subject() == Some(s) && spec_descends_or_contains(memos, c, heads[s]) == Some(true));
            } else {
                let k = choose|k: int|
                    0 <= k < links.drop_first().len() && (#[trigger] links.drop_first()[k] matches LinkView::Occupied(_, c)
                        && c.subject() == Some(s) && spec_descends_or_contains(memos, c, h1[s]) == Some(true));
                assert(links[k + 1] == links.drop_first()[k]);
            }
        }
    }
}

/// Read after write: once a head is applied to the stash, the subject's
/// resident head is the new head, unless one of the new head's own edges
/// points back to the subject.
pub proof fn lemma_apply_head_readback(memos: Seq<MemoView>, heads: Map<SubjectId, HeadView>, s: SubjectId, h1: HeadView)
    requires
        forall|k: int| 0 <= k < edge_links_spec(memos, h1).len() ==> !(#[trigger] edge_links_spec(memos, h1)[k] matches LinkView::Occupied(_, c)
            && c.subject() == Some(s)),
    ensures
        prune_links(memos, heads.insert(s, h1), edge_links_spec(memos, h1)).contains_key(s),
        prune_links(memos, heads.insert(s, h1), edge_links_spec(memos, h1))[s] == h1,
{
    lemma_prune_links_keeps(memos, heads.insert(s, h1), edge_links_spec(memos, h1), s);
}

/// The stash of subject heads that a query context must take into account.
/// Items are found through an index sorted by subject; emptied positions
/// are reused.
pub struct Stash {
    items: Vec<Option<StashItem>>,
    index: Vec<(SubjectId, ItemId)>,
    vacancies: Vec<ItemId>,
}

impl Stash {
    /// The items, by position.
    pub closed spec fn items_v(&self) -> Seq<Option<ItemView>> {
        self.items@.map_values(|o: Option<StashItem>| opt_item_view(o))
    }

    /// Slot `i` of the storage holds a head whose subject is not in `visited`.
    pub closed spec fn pending_slot(&self, visited: Seq<SubjectId>, i: int) -> bool {
        slot_pending(self.items_v(), visited, i)
    }

    /// The subject of the item in slot `i` of the storage.
    pub closed spec fn slot_subject(&self, i: int) -> SubjectId {
        self.items_v()[i].unwrap().subject_id
    }

    /// The well-formedness of the stash.
    pub closed spec fn wf(&self) -> bool {
        &&& structure_ok(self.items_v(), self.index@, self.vacancies@)
        &&& counts_ok(self.items_v())
    }

    /// The resident heads, by subject.
    pub closed spec fn heads(&self) -> Map<SubjectId, HeadView> {
        heads_of(self.items_v())
    }

    /// The subjects that the stash knows, with or without a head, in index order.
    pub closed spec fn subjects(&self) -> Seq<SubjectId> {
        self.index@.map_values(|e: (SubjectId, ItemId)| e.0)
    }

    /// An empty stash.
    pub fn new() -> (r: Stash)
        ensures
            r.wf(),
            r.heads() == Map::<SubjectId, HeadView>::empty(),
            r.subjects() == Seq::<SubjectId>::empty(),
    {
        let r = Stash { items: Vec::new(), index: Vec::new(), vacancies: Vec::new() };
        proof {
            assert(r.items_v() =~= Seq::<Option<ItemView>>::empty());
            assert(r.heads() =~= Map::<SubjectId, HeadView>::empty());
            assert(r.subjects() =~= Seq::<SubjectId>::empty());
        }
        r
    }

    /// Where `s` is (`Ok`) or would go (`Err`) in the index.
    fn search(&self, s: SubjectId) -> (r: Result<usize, usize>)
        requires
            index_sorted(self.index@),
        ensures
            r matches Ok(k) ==> k < self.index@.len() && self.index@[k as int].0 == s,
            r matches Err(k) ==> {
                &&& k <= self.index@.len()
                &&& forall|j: int| 0 <= j < k ==> subject_key(#[trigger] self.index@[j].0) < subject_key(s)
                &&& forall|j: int|
                    k <= j < self.index@.len() ==> subject_key(s) < subject_key(#[trigger] self.index@[j].0)
            },
    {
        let mut lo: usize = 0;
        let mut hi: usize = self.index.len();
        while lo < hi
            invariant
                index_sorted(self.index@),
                lo <= hi <= self.index@.len(),
                forall|j: int| 0 <= j < lo ==> subject_key(#[trigger] self.index@[j].0) < subject_key(s),
                forall|j: int| hi <= j < self.index@.len() ==> subject_key(s) < subject_key(#[trigger] self.index@[j].0),
            decreases hi - lo,
        {
            let mid = lo + (hi - lo) / 2;
            let e = self.index[mid].0;
            if e == s {
                return Ok(mid);
            }
            proof {
                lemma_subject_key_injective(e, s);
            }
            if subject_lt(&e, &s) {
                proof {
                    assert forall|j: int| 0 <= j < mid + 1 implies subject_key(#[trigger] self.index@[j].0) < subject_key(s) by {
                        if j < mid {
                            assert(subject_key(self.index@[j].0) < subject_key(self.index@[mid as int].0));
                        }
                    }
                }
                lo = mid + 1;
            } else {
                proof {
                    assert forall|j: int| mid <= j < self.index@.len() implies subject_key(s) < subject_key(#[trigger] self.index@[j].0) by {
                        if j > mid {
                            assert(subject_key(self.index@[mid as int].0) < subject_key(self.index@[j].0));
                        }
                    }
                }
                hi = mid;
            }
        }
        Err(lo)
    }

    /// The item of subject `s`, if the stash knows the subject.
    fn get_item_id_for_subject(&self, s: SubjectId) -> (r: Option<ItemId>)
        requires
            self.wf(),
        ensures
            r matches Some(i) ==> live(self.items_v(), i as int) && self.items_v()[i as int].unwrap().subject_id == s,
            r is None ==> forall|i: int| #[trigger] live(self.items_v(), i) ==> self.items_v()[i].unwrap().subject_id != s,
    {
        match self.search(s) {
            Ok(k) => {
                proof {
                    assert(live(self.items_v(), self.index@[k as int].1 as int));
                }
                Some(self.index[k].1)
            },
            Err(k) => {
                proof {
                    let items = self.items_v();
                    assert forall|i: int| #[trigger] live(items, i) implies items[i].unwrap().subject_id != s by {
                        assert(items[i] == self.items_v()[i]);
                        let kk = choose|kk: int| 0 <= kk < self.index@.len() && #[trigger] self.index@[kk] == (items[i].unwrap().subject_id, i as ItemId);
                        assert(self.index@[kk].0 == items[i].unwrap().subject_id);
                        if kk < k {
                            assert(subject_key(self.index@[kk].0) < subject_key(s));
                        } else {
                            assert(subject_key(s) < subject_key(self.index@[kk].0));
                        }
                    }
                }
                None
            },
        }
    }

    /// Adds one to (`up`) or takes one from the reference count of live item `t`.
    fn adjust_count(&mut self, t: ItemId, up: bool)
        requires
            live(old(self).items_v(), t as int),
            up ==> old(self).items_v()[t as int].unwrap().ref_count < u128::MAX,
            !up ==> old(self).items_v()[t as int].unwrap().ref_count > 0,
        ensures
            final(self).index@ == old(self).index@,
            final(self).vacancies@ == old(self).vacancies@,
            final(self).items_v() == old(self).items_v().update(
                t as int,
                Some(
                    ItemView {
                        ref_count: (if up {
                            old(self).items_v()[t as int].unwrap().ref_count + 1
                        } else {
                            old(self).items_v()[t as int].unwrap().ref_count - 1
                        }) as u128,
                        ..old(self).items_v()[t as int].unwrap()
                    },
                ),
            ),
    {
        let ghost old_items = self.items@;
        proof {
            assert(self.items_v()[t as int] == opt_item_view(self.items@[t as int]));
        }
        match &mut self.items[t] {
            Some(it) => {
                if up {
                    it.ref_count = it.ref_count + 1;
                } else {
                    it.ref_count = it.ref_count - 1;
                }
            },
            None => {},
        }
        proof {
            assert(self.items@ =~= old_items.update(t as int, self.items@[t as int]));
            assert(self.items_v() =~= old(self).items_v().update(
                t as int,
                Some(
                    ItemView {
                        ref_count: (if up {
                            old(self).items_v()[t as int].unwrap().ref_count + 1
                        } else {
                            old(self).items_v()[t as int].unwrap().ref_count - 1
                        }) as u128,
                        ..old(self).items_v()[t as int].unwrap()
                    },
                ),
            ));
        }
    }

    /// Removes item `j` when no slot points to it and it holds no head: its
    /// position becomes a vacancy, its index entry goes, and the items that
    /// its own slots pointed to lose those references.
    fn conditional_remove_item(&mut self, j: ItemId)
        requires
            old(self).wf(),
            live(old(self).items_v(), j as int),
        ensures
            final(self).wf(),
            final(self).items_v().len() == old(self).items_v().len(),
            keeps(old(self).items_v(), final(self).items_v(), j as int),
            old(self).items_v()[j as int].unwrap().ref_count == 0 && old(self).items_v()[j as int].unwrap().head is None
                ==> {
                &&& final(self).items_v()[j as int] is None
                &&& final(self).vacancies@ == old(self).vacancies@.push(j)
                &&& forall|k: int| 0 <= k < final(self).index@.len() ==> (#[trigger] final(self).index@[k]).1 != j
            },
            !(old(self).items_v()[j as int].unwrap().ref_count == 0 && old(self).items_v()[j as int].unwrap().head is None)
                ==> final(self).items_v() == old(self).items_v() && final(self).index@ == old(self).index@
                && final(self).vacancies@ == old(self).vacancies@,
            final(self).heads() == old(self).heads(),
            counters_kept(old(self).items_v(), final(self).items_v()),
            forall|i: int| #![trigger final(self).items_v()[i]] i != j && live(old(self).items_v(), i) ==> live(final(self).items_v(), i),
    {
        let ghost items0 = self.items_v();
        let ghost index0 = self.index@;
        let ghost vac0 = self.vacancies@;
        proof {
            assert(items0[j as int] == opt_item_view(self.items@[j as int]));
        }
        let remove = match &self.items[j] {
            Some(it) => it.ref_count == 0 && it.head.is_none(),
            None => false,
        };
        if !remove {
            return;
        }
        let (subject, rels) = match &self.items[j] {
            Some(it) => (it.subject_id, it.relations.clone()),
            None => {
                return;
            },
        };
        proof {
            assert(rels@ =~= items0[j as int].unwrap().relations);
        }
        let ghost items_before = self.items@;
        self.items.set(j, None);
        proof {
            assert(self.items_v() =~= items0.update(j as int, None));
        }
        self.vacancies.push(j);
        let found = self.search(subject);
        let k = match found {
            Ok(k) => k,
            Err(_) => {
                proof {
                    let kk = choose|kk: int| 0 <= kk < index0.len() && #[trigger] index0[kk] == (subject, j);
                    assert(index0[kk].0 == subject);
                }
                return;
            },
        };
        proof {
            let kk = choose|kk: int| 0 <= kk < index0.len() && #[trigger] index0[kk] == (subject, j);
            assert(index0[kk].0 == subject);
            if kk < k {
                assert(subject_key(index0[kk].0) < subject_key(index0[k as int].0));
            } else if k < kk {
                assert(subject_key(index0[k as int].0) < subject_key(index0[kk].0));
            }
            assert(index0[k as int] == (subject, j));
        }
        self.index.remove(k);
        let ghost items1 = items0.update(j as int, None);
        let ghost index1 = index0.remove(k as int);
        let ghost vac1 = vac0.push(j);
        proof {
            lemma_remove_structure(items0, index0, vac0, j as int, k as int);
            assert(self.index@ =~= index1);
            assert(self.vacancies@ =~= vac1);
            assert(rels@.skip(0) =~= rels@);
            assert forall|t: int| #![trigger items1[t]] live(items1, t) implies items1[t].unwrap().ref_count == ref_total(
                items1,
                t as ItemId,
            ) + count_rel(rels@.skip(0), t as ItemId) by {
                assert(items1[t] == items0[t]);
                lemma_ref_total_update(items0, j as int, None, t as ItemId);
            }
            assert forall|q: int| 0 <= q < rels@.len() && (#[trigger] rels@[q]) is Some implies live(items1, rels@[q].unwrap() as int) by {
                assert(items0[j as int].unwrap().relations[q] == rels@[q]);
                lemma_unreferenced(items0, j as ItemId, j as int, q);
                assert(items1[rels@[q].unwrap() as int] == items0[rels@[q].unwrap() as int]);
            }
        }
        let mut q: usize = 0;
        while q < STASH_RELATION_SLOTS
            invariant
                q <= STASH_RELATION_SLOTS,
                rels@.len() == STASH_RELATION_SLOTS,
                self.index@ == index1,
                self.vacancies@ == vac1,
                structure_ok(items1, index1, vac1),
                same_shape(items1, self.items_v()),
                counters_kept(items1, self.items_v()),
                forall|p: int| 0 <= p < rels@.len() && (#[trigger] rels@[p]) is Some ==> live(items1, rels@[p].unwrap() as int),
                forall|t: int|
                    #![trigger self.items_v()[t]]
                    live(self.items_v(), t) ==> self.items_v()[t].unwrap().ref_count == ref_total(self.items_v(), t as ItemId)
                        + count_rel(rels@.skip(q as int), t as ItemId),
            decreases STASH_RELATION_SLOTS - q,
        {
            let ghost cur = self.items_v();
            proof {
                assert forall|t: int| #![trigger cur[t]] live(cur, t) implies count_rel(rels@.skip(q as int), t as ItemId) == (if rels@[q as int] == Some(t as ItemId) {
                    1nat
                } else {
                    0nat
                }) + count_rel(rels@.skip(q + 1), t as ItemId) by {
                    lemma_count_rel_skip(rels@, q as int, t as ItemId);
                }
            }
            match rels[q] {
                Some(t) => {
                    proof {
                        assert(live(items1, t as int));
                        assert(items1[t as int] is Some);
                        assert(cur[t as int] is Some);
                        lemma_count_rel_skip(rels@, q as int, t);
                    }
                    self.adjust_count(t, false);
                    proof {
                        let nxt = self.items_v();
                        assert forall|i: int| #![trigger cur[i]] #![trigger nxt[i]] 0 <= i < cur.len() implies (cur[i] is Some <==> nxt[i] is Some) && (cur[i] is Some ==> same_item(
                            cur[i].unwrap(),
                            nxt[i].unwrap(),
                        )) by {}
                        assert(same_shape(cur, nxt));
                        assert forall|i: int| #![trigger items1[i]] #![trigger nxt[i]] 0 <= i < items1.len() implies (items1[i] is Some <==> nxt[i] is Some) && (items1[i] is Some ==> same_item(
                            items1[i].unwrap(),
                            nxt[i].unwrap(),
                        )) by {
                            assert(items1[i] is Some <==> cur[i] is Some);
                        }
                        assert forall|u: int| #![trigger nxt[u]] live(nxt, u) implies nxt[u].unwrap().ref_count == ref_total(nxt, u as ItemId)
                            + count_rel(rels@.skip(q + 1), u as ItemId) by {
                            lemma_shape_ref_total(cur, nxt, u as ItemId);
                            assert(cur[u] is Some);
                            assert(live(cur, u));
                        }
                    }
                },
                None => {
                    proof {
                        assert forall|u: int| #![trigger cur[u]] live(cur, u) implies cur[u].unwrap().ref_count == ref_total(cur, u as ItemId)
                            + count_rel(rels@.skip(q + 1), u as ItemId) by {}
                    }
                },
            }
            q = q + 1;
        }
        proof {
            let fin = self.items_v();
            assert(rels@.skip(STASH_RELATION_SLOTS as int) =~= Seq::<Option<ItemId>>::empty());
            lemma_shape_structure(items1, fin, index1, vac1);
            assert forall|t: int| #![trigger fin[t]] live(fin, t) implies fin[t].unwrap().ref_count == ref_total(fin, t as ItemId) by {}
            assert forall|i: int| #![trigger fin[i]] live(fin, i) && i != j implies live(items0, i) && same_item(items0[i].unwrap(), fin[i].unwrap()) by {
                assert(items1[i] is Some);
                assert(items1[i] == items0[i]);
            }
            assert forall|i: int| #![trigger items0[i]] live(items0, i) && i != j && items0[i].unwrap().head is Some implies live(fin, i) by {
                assert(items1[i] == items0[i]);
                assert(items1[i] is Some);
            }
            assert(fin[j as int] is None) by {
                assert(items1[j as int] is None);
            }
            lemma_keeps_heads(items0, index0, fin, index1, j as int);
            assert forall|i: int| #![trigger fin[i]] live(items0, i) && live(fin, i) implies fin[i].unwrap().edit_counter == items0[i].unwrap().edit_counter by {
                assert(items1[i] is Some);
                assert(items1[i] == items0[i]);
            }
            assert forall|i: int| #![trigger fin[i]] i != j && live(items0, i) implies live(fin, i) by {
                assert(items1[i] == items0[i]);
                assert(items1[i] is Some);
            }
        }
    }

    /// Counts one more slot pointing to live item `t`.
    fn increment_item(&mut self, t: ItemId)
        requires
            live(old(self).items_v(), t as int),
            old(self).items_v()[t as int].unwrap().ref_count < u128::MAX,
        ensures
            final(self).index@ == old(self).index@,
            final(self).vacancies@ == old(self).vacancies@,
            final(self).items_v() == old(self).items_v().update(
                t as int,
                Some(
                    ItemView {
                        ref_count: (old(self).items_v()[t as int].unwrap().ref_count + 1) as u128,
                        ..old(self).items_v()[t as int].unwrap()
                    },
                ),
            ),
    {
        self.adjust_count(t, true);
    }

    /// Counts one slot less pointing to item `t`, which had one more count
    /// than slots pointing to it, and removes it when it is then unreferenced
    /// and holds no head.
    fn decrement_item(&mut self, t: ItemId)
        requires
            structure_ok(old(self).items_v(), old(self).index@, old(self).vacancies@),
            live(old(self).items_v(), t as int),
            old(self).items_v()[t as int].unwrap().ref_count == ref_total(old(self).items_v(), t) + 1,
            forall|u: int|
                #![trigger old(self).items_v()[u]]
                live(old(self).items_v(), u) && u != t ==> old(self).items_v()[u].unwrap().ref_count == ref_total(
                    old(self).items_v(),
                    u as ItemId,
                ),
        ensures
            final(self).wf(),
            final(self).items_v().len() == old(self).items_v().len(),
            keeps(old(self).items_v(), final(self).items_v(), t as int),
            live(final(self).items_v(), t as int) ==> same_item(old(self).items_v()[t as int].unwrap(), final(self).items_v()[t as int].unwrap()),
            old(self).items_v()[t as int].unwrap().head is Some ==> live(final(self).items_v(), t as int),
            heads_of(final(self).items_v()) == heads_of(old(self).items_v()),
            counters_kept(old(self).items_v(), final(self).items_v()),
            forall|i: int| #![trigger final(self).items_v()[i]] i != t && live(old(self).items_v(), i) ==> live(final(self).items_v(), i),
            old(self).items_v()[t as int].unwrap().ref_count == 1 && old(self).items_v()[t as int].unwrap().head is None
                ==> !live(final(self).items_v(), t as int),
            !(old(self).items_v()[t as int].unwrap().ref_count == 1 && old(self).items_v()[t as int].unwrap().head is None)
                ==> final(self).items_v() == old(self).items_v().update(
                t as int,
                Some(
                    ItemView {
                        ref_count: (old(self).items_v()[t as int].unwrap().ref_count - 1) as u128,
                        ..old(self).items_v()[t as int].unwrap()
                    },
                ),
            ),
    {
        let ghost items0 = self.items_v();
        self.adjust_count(t, false);
        let ghost items1 = self.items_v();
        proof {
            assert(same_shape(items0, items1)) by {
                assert forall|i: int| #![trigger items0[i]] #![trigger items1[i]] 0 <= i < items0.len() implies (items0[i] is Some <==> items1[i] is Some) && (items0[i] is Some ==> same_item(
                    items0[i].unwrap(),
                    items1[i].unwrap(),
                )) by {}
            }
            lemma_shape_structure(items0, items1, self.index@, self.vacancies@);
            assert forall|u: int| #![trigger items1[u]] live(items1, u) implies items1[u].unwrap().ref_count == ref_total(items1, u as ItemId) by {
                lemma_shape_ref_total(items0, items1, u as ItemId);
                assert(items0[u] is Some);
            }
            assert(head_shape(items0, items1)) by {
                assert forall|i: int| #![trigger items0[i]] #![trigger items1[i]] 0 <= i < items0.len() implies (items0[i] is Some <==> items1[i] is Some) && (items0[i] is Some ==> items0[i].unwrap().subject_id
                    == items1[i].unwrap().subject_id && items0[i].unwrap().head == items1[i].unwrap().head) by {}
            }
            lemma_shape_heads(items0, items1, self.index@);
        }
        self.conditional_remove_item(t);
        proof {
            let fin = self.items_v();
            assert forall|i: int| #![trigger fin[i]] live(fin, i) && i != t implies live(items0, i) && same_item(items0[i].unwrap(), fin[i].unwrap()) by {
                assert(items1[i] is Some);
                assert(items0[i] is Some);
            }
            assert forall|i: int| #![trigger items0[i]] live(items0, i) && i != t && items0[i].unwrap().head is Some implies live(fin, i) by {
                assert(items1[i] is Some);
            }
            if live(fin, t as int) {
                assert(items1[t as int] is Some);
            }
            if items0[t as int].unwrap().head is Some {
                assert(items1[t as int].unwrap().head is Some);
            }
            assert forall|i: int| #![trigger fin[i]] live(items0, i) && live(fin, i) implies fin[i].unwrap().edit_counter == items0[i].unwrap().edit_counter by {
                assert(items1[i] is Some);
            }
        }
    }

    /// Points slot `slot` of live item `item_id`, which holds a head, to `target`.
    #[verifier::rlimit(50)]
    fn set_relation(&mut self, item_id: ItemId, slot: usize, target: Option<ItemId>)
        requires
            old(self).wf(),
            live(old(self).items_v(), item_id as int),
            slot < STASH_RELATION_SLOTS,
            old(self).items_v()[item_id as int].unwrap().relations[slot as int] == Some(item_id) && target != Some(item_id)
                ==> old(self).items_v()[item_id as int].unwrap().head is Some || old(self).items_v()[item_id as int].unwrap().ref_count
                != 1,
            target matches Some(t) ==> live(old(self).items_v(), t as int),
        ensures
            final(self).wf(),
            final(self).items_v().len() == old(self).items_v().len(),
            keeps(old(self).items_v(), final(self).items_v(), item_id as int),
            live(final(self).items_v(), item_id as int),
            final(self).items_v()[item_id as int].unwrap().subject_id == old(self).items_v()[item_id as int].unwrap().subject_id,
            final(self).items_v()[item_id as int].unwrap().head == old(self).items_v()[item_id as int].unwrap().head,
            final(self).items_v()[item_id as int].unwrap().relations == old(self).items_v()[item_id as int].unwrap().relations.update(
                slot as int,
                target,
            ),
            final(self).items_v()[item_id as int].unwrap().edit_counter == old(self).items_v()[item_id as int].unwrap().edit_counter,
            final(self).heads() == old(self).heads(),
            old(self).items_v()[item_id as int].unwrap().relations[slot as int] != target ==> match old(self).items_v()[item_id as int].unwrap().relations[slot as int] {
                Some(o) => {
                    &&& (old(self).items_v()[o as int].unwrap().ref_count == 1 && old(self).items_v()[o as int].unwrap().head is None
                        <==> !live(final(self).items_v(), o as int))
                    &&& live(final(self).items_v(), o as int) ==> final(self).items_v()[o as int].unwrap().ref_count
                        == old(self).items_v()[o as int].unwrap().ref_count - 1
                    &&& live(final(self).items_v(), o as int) ==> match target {
                        Some(t) => final(self).items_v()[t as int].unwrap().ref_count == old(self).items_v()[t as int].unwrap().ref_count + 1,
                        None => true,
                    }
                },
                None => match target {
                    Some(t) => final(self).items_v()[t as int].unwrap().ref_count == old(self).items_v()[t as int].unwrap().ref_count + 1,
                    None => true,
                },
            },
    {
        let ghost items0 = self.items_v();
        let ghost index0 = self.index@;
        let ghost vac0 = self.vacancies@;
        let ghost it0 = items0[item_id as int].unwrap();
        proof {
            assert(items0[item_id as int] == opt_item_view(self.items@[item_id as int]));
        }
        let ex = match &self.items[item_id] {
            Some(it) => it.relations[slot],
            None => None,
        };
        let same = match (ex, target) {
            (Some(a), Some(b)) => a == b,
            (None, None) => true,
            _ => false,
        };
        if same {
            proof {
                assert(it0.relations.update(slot as int, target) =~= it0.relations);
                assert(keeps(items0, items0, item_id as int));
            }
            return;
        }
        let ghost before = self.items@;
        match &mut self.items[item_id] {
            Some(it) => {
                it.relations.set(slot, target);
            },
            None => {},
        }
        let ghost items2 = self.items_v();
        let ghost it2 = ItemView { relations: it0.relations.update(slot as int, target), ..it0 };
        proof {
            assert(self.items@ =~= before.update(item_id as int, self.items@[item_id as int]));
            assert(items2 =~= items0.update(item_id as int, Some(it2)));
            // structure
            assert forall|k: int| 0 <= k < index0.len() implies {
                &&& live(items2, #[trigger] index0[k].1 as int)
                &&& items2[index0[k].1 as int].unwrap().subject_id == index0[k].0
            } by {
                assert(live(items0, index0[k].1 as int));
            }
            assert forall|i: int| #![trigger items2[i]] live(items2, i) implies exists|k: int|
                0 <= k < index0.len() && #[trigger] index0[k] == (items2[i].unwrap().subject_id, i as ItemId) by {
                assert(live(items0, i));
            }
            assert forall|m: int| 0 <= m < vac0.len() implies (#[trigger] vac0[m]) < items2.len() && items2[vac0[m] as int] is None by {
                assert(items0[vac0[m] as int] is None);
            }
            assert forall|i: int| #![trigger items2[i]] live(items2, i) implies items2[i].unwrap().relations.len() == STASH_RELATION_SLOTS by {
                assert(live(items0, i));
            }
            assert forall|i: int, q: int|
                live(items2, i) && 0 <= q < items2[i].unwrap().relations.len() && (#[trigger] items2[i].unwrap().relations[q]) is Some
                    implies live(items2, items2[i].unwrap().relations[q].unwrap() as int) by {
                assert(live(items0, i));
                if i == item_id as int && q == slot as int {
                } else {
                    assert(items2[i].unwrap().relations[q] == items0[i].unwrap().relations[q]);
                }
            }
            assert forall|i: int| #![trigger items2[i]] live(items2, i) && items2[i].unwrap().head is Some implies {
                &&& items2[i].unwrap().head.unwrap().subject() == Some(items2[i].unwrap().subject_id)
                &&& items2[i].unwrap().subject_id.stype == SubjectType::IndexNode
            } by {
                assert(live(items0, i));
            }
            assert(structure_ok(items2, index0, vac0));
            // counts
            assert forall|u: int| #![trigger items2[u]] live(items2, u) implies items2[u].unwrap().ref_count + (if target
                == Some(u as ItemId) {
                1int
            } else {
                0int
            }) == ref_total(items2, u as ItemId) + (if ex == Some(u as ItemId) {
                1int
            } else {
                0int
            }) by {
                assert(live(items0, u));
                lemma_ref_total_update(items0, item_id as int, Some(it2), u as ItemId);
                lemma_count_rel_update(it0.relations, slot as int, target, u as ItemId);
                assert(it0.relations[slot as int] == ex);
            }
            assert(head_shape(items0, items2)) by {
                assert forall|i: int| #![trigger items0[i]] #![trigger items2[i]] 0 <= i < items0.len() implies (items0[i] is Some <==> items2[i] is Some) && (items0[i] is Some ==> items0[i].unwrap().subject_id
                    == items2[i].unwrap().subject_id && items0[i].unwrap().head == items2[i].unwrap().head) by {}
            }
            lemma_shape_heads(items0, items2, index0);
        }
        match target {
            Some(t) => {
                proof {
                    lemma_ref_total_bound(items0, t);
                    assert(live(items0, t as int));
                    assert(items2[t as int].unwrap().ref_count == items0[t as int].unwrap().ref_count || t == item_id);
                    assert(items0[t as int].unwrap().ref_count == ref_total(items0, t));
                    assert(STASH_RELATION_SLOTS * items0.len() <= 256 * (usize::MAX as int));
                }
                self.increment_item(t);
            },
            None => {},
        }
        let ghost items3 = self.items_v();
        proof {
            assert(same_shape(items2, items3)) by {
                assert forall|i: int| #![trigger items2[i]] #![trigger items3[i]] 0 <= i < items2.len() implies (items2[i] is Some <==> items3[i] is Some) && (items2[i] is Some ==> same_item(
                    items2[i].unwrap(),
                    items3[i].unwrap(),
                )) by {}
            }
            lemma_shape_structure(items2, items3, index0, vac0);
            assert forall|u: int| #![trigger items3[u]] live(items3, u) implies items3[u].unwrap().ref_count == ref_total(items3, u as ItemId) + (if ex
                == Some(u as ItemId) {
                1int
            } else {
                0int
            }) by {
                lemma_shape_ref_total(items2, items3, u as ItemId);
                assert(items2[u] is Some);
            }
            assert(head_shape(items2, items3)) by {
                assert forall|i: int| #![trigger items2[i]] #![trigger items3[i]] 0 <= i < items2.len() implies (items2[i] is Some <==> items3[i] is Some) && (items2[i] is Some ==> items2[i].unwrap().subject_id
                    == items3[i].unwrap().subject_id && items2[i].unwrap().head == items3[i].unwrap().head) by {}
            }
            lemma_shape_heads(items2, items3, index0);
        }
        match ex {
            Some(o) => {
                proof {
                    assert(live(items0, item_id as int));
                    assert(it0.relations[slot as int] == Some(o));
                    assert(live(items0, o as int));
                    assert(items3[o as int] is Some);
                }
                self.decrement_item(o);
                proof {
                    let fin = self.items_v();
                    assert forall|i: int| #![trigger fin[i]] live(fin, i) && i != item_id as int implies live(items0, i) && same_item(items0[i].unwrap(), fin[i].unwrap()) by {
                        if i != o as int {
                            assert(items3[i] is Some);
                            assert(items2[i] is Some);
                        } else {
                            assert(items3[i] is Some);
                            assert(items2[i] is Some);
                        }
                    }
                    assert forall|i: int| #![trigger items0[i]] live(items0, i) && i != item_id as int && items0[i].unwrap().head is Some implies live(fin, i) by {
                        assert(items2[i] is Some);
                        assert(items3[i] is Some);
                        assert(items3[i].unwrap().head is Some);
                    }
                    if item_id != o {
                        assert(items3[item_id as int] is Some);
                        assert(live(items3, item_id as int));
                        assert(live(fin, item_id as int));
                    } else {
                        assert(target != Some(item_id));
                        assert(items3[item_id as int].unwrap().ref_count == items0[item_id as int].unwrap().ref_count);
                        assert(items3[item_id as int].unwrap().head == items0[item_id as int].unwrap().head);
                        assert(!(items3[o as int].unwrap().ref_count == 1 && items3[o as int].unwrap().head is None));
                    }
                }
            },
            None => {
                proof {
                    assert forall|u: int| #![trigger items3[u]] live(items3, u) implies items3[u].unwrap().ref_count == ref_total(items3, u as ItemId) by {}
                    assert forall|i: int| #![trigger items3[i]] live(items3, i) && i != item_id as int implies live(items0, i) && same_item(items0[i].unwrap(), items3[i].unwrap()) by {
                        assert(items2[i] is Some);
                    }
                    assert forall|i: int| #![trigger items0[i]] live(items0, i) && i != item_id as int && items0[i].unwrap().head is Some implies live(items3, i) by {
                        assert(items2[i] is Some);
                    }
                    assert(items2[item_id as int] is Some);
                }
            },
        }
    }

    /// The item of subject `s`, created (without a head) when the stash does
    /// not know the subject yet; an emptied position is reused first.
    #[verifier::rlimit(40)]
    fn assert_item(&mut self, s: SubjectId) -> (r: ItemId)
        requires
            old(self).wf(),
        ensures
            final(self).wf(),
            live(final(self).items_v(), r as int),
            final(self).items_v()[r as int].unwrap().subject_id == s,
            keeps(old(self).items_v(), final(self).items_v(), r as int),
            live(old(self).items_v(), r as int) ==> final(self).items_v() == old(self).items_v(),
            (exists|i: int| live(old(self).items_v(), i) && old(self).items_v()[i].unwrap().subject_id == s) ==> live(
                old(self).items_v(),
                r as int,
            ),
            !live(old(self).items_v(), r as int) ==> {
                &&& final(self).items_v()[r as int].unwrap().head is None
                &&& forall|q: int| 0 <= q < STASH_RELATION_SLOTS ==> #[trigger] final(self).items_v()[r as int].unwrap().relations[q] is None
                &&& final(self).items_v()[r as int].unwrap().edit_counter == 1
                &&& final(self).items_v()[r as int].unwrap().ref_count == 0
                &&& old(self).vacancies@.len() > 0 ==> r == old(self).vacancies@.last() && final(self).vacancies@
                    == old(self).vacancies@.drop_last()
                &&& old(self).vacancies@.len() == 0 ==> r == old(self).items_v().len() && final(self).vacancies@
                    == old(self).vacancies@
                &&& exists|k: int| #![trigger old(self).index@.insert(k, (s, r))] 0 <= k <= old(self).index@.len()
                    && final(self).index@ == old(self).index@.insert(k, (s, r))
            },
            live(old(self).items_v(), r as int) ==> final(self).index@ == old(self).index@ && final(self).vacancies@
                == old(self).vacancies@,
            forall|i: int| 0 <= i < old(self).items_v().len() && i != r ==> #[trigger] final(self).items_v()[i] == old(self).items_v()[i],
            final(self).heads() == old(self).heads(),
    {
        let ghost items0 = self.items_v();
        let ghost index0 = self.index@;
        let ghost vac0 = self.vacancies@;
        match self.search(s) {
            Ok(k) => {
                proof {
                    assert(live(items0, index0[k as int].1 as int));
                    assert(keeps(items0, items0, index0[k as int].1 as int));
                }
                self.index[k].1
            },
            Err(k) => {
                proof {
                    assert forall|i: int| live(items0, i) implies #[trigger] items0[i].unwrap().subject_id != s by {
                        assert(items0[i] is Some);
                        let kk = choose|kk: int| 0 <= kk < index0.len() && #[trigger] index0[kk] == (items0[i].unwrap().subject_id, i as ItemId);
                        if kk < k {
                            assert(subject_key(index0[kk].0) < subject_key(s));
                        } else {
                            assert(subject_key(s) < subject_key(index0[kk].0));
                        }
                    }
                }
                let rels = empty_relations();
                let item = StashItem { subject_id: s, head: None, relations: rels, edit_counter: 1, ref_count: 0 };
                let ghost nv = item@;
                let id = match self.vacancies.pop() {
                    Some(v) => {
                        proof {
                            assert(vac0[vac0.len() - 1] == v);
                            assert(items0[v as int] is None);
                        }
                        let ghost before = self.items@;
                        self.items.set(v, Some(item));
                        proof {
                            assert(self.items_v() =~= items0.update(v as int, Some(nv)));
                        }
                        v
                    },
                    None => {
                        self.items.push(Some(item));
                        proof {
                            assert(self.items_v() =~= items0.push(Some(nv)));
                        }
                        self.items.len() - 1
                    },
                };
                let ghost items1 = self.items_v();
                let ghost vac1 = self.vacancies@;
                self.index.insert(k, (s, id));
                let ghost index1 = self.index@;
                proof {
                    assert(!live(items0, id as int));
                    assert(items1.len() <= usize::MAX);
                    assert(forall|i: int| 0 <= i < items1.len() && i != id ==> #[trigger] items1[i] == items0[i]);
                    assert(index1 =~= index0.insert(k as int, (s, id)));
                    // sortedness
                    assert forall|a: int, b: int| 0 <= a < b < index1.len() implies subject_key(#[trigger] index1[a].0) < subject_key(
                        #[trigger] index1[b].0,
                    ) by {
                        if b < k {
                            assert(index1[a] == index0[a] && index1[b] == index0[b]);
                        } else if b == k {
                            assert(index1[a] == index0[a]);
                        } else if a < k {
                            assert(index1[a] == index0[a] && index1[b] == index0[b - 1]);
                        } else if a == k {
                            assert(index1[b] == index0[b - 1]);
                        } else {
                            assert(index1[a] == index0[a - 1] && index1[b] == index0[b - 1]);
                        }
                    }
                    assert forall|m: int| 0 <= m < index1.len() implies {
                        &&& live(items1, #[trigger] index1[m].1 as int)
                        &&& items1[index1[m].1 as int].unwrap().subject_id == index1[m].0
                    } by {
                        if m != k {
                            let m0 = if m < k { m } else { m - 1 };
                            assert(index1[m] == index0[m0]);
                            assert(live(items0, index0[m0].1 as int));
                            assert(index0[m0].1 != id);
                        }
                    }
                    assert forall|i: int| #![trigger items1[i]] live(items1, i) implies exists|m: int|
                        0 <= m < index1.len() && #[trigger] index1[m] == (items1[i].unwrap().subject_id, i as ItemId) by {
                        if i == id as int {
                            assert(index1[k as int] == (s, id));
                        } else {
                            assert(items1[i] == items0[i]);
                            let k2 = choose|k2: int| 0 <= k2 < index0.len() && #[trigger] index0[k2] == (items0[i].unwrap().subject_id, i as ItemId);
                            let m = if k2 < k { k2 } else { k2 + 1 };
                            assert(index1[m] == index0[k2]);
                        }
                    }
                    assert forall|m: int| 0 <= m < vac1.len() implies (#[trigger] vac1[m]) < items1.len() && items1[vac1[m] as int] is None by {
                        assert(vac1[m] == vac0[m]);
                        assert(items0[vac0[m] as int] is None);
                        if vac1.len() < vac0.len() {
                            assert(vac0[m] != vac0[vac0.len() - 1]);
                        }
                    }
                    assert(vac1.no_duplicates()) by {
                        assert forall|a: int, b: int| 0 <= a < vac1.len() && 0 <= b < vac1.len() && a != b implies vac1[a] != vac1[b] by {
                            assert(vac1[a] == vac0[a] && vac1[b] == vac0[b]);
                        }
                    }
                    assert forall|i: int| #![trigger items1[i]] live(items1, i) implies items1[i].unwrap().relations.len() == STASH_RELATION_SLOTS by {
                        if i != id as int {
                            assert(items1[i] == items0[i]);
                        }
                    }
                    assert forall|i: int, q: int|
                        live(items1, i) && 0 <= q < items1[i].unwrap().relations.len() && (#[trigger] items1[i].unwrap().relations[q]) is Some
                            implies live(items1, items1[i].unwrap().relations[q].unwrap() as int) by {
                        if i != id as int {
                            assert(items1[i] == items0[i]);
                            assert(live(items0, i));
                            let t = items0[i].unwrap().relations[q].unwrap() as int;
                            assert(live(items0, t));
                            assert(items1[t] == items0[t]);
                        } else {
                            assert(nv.relations[q] is None);
                        }
                    }
                    assert forall|i: int| #![trigger items1[i]] live(items1, i) && items1[i].unwrap().head is Some implies {
                        &&& items1[i].unwrap().head.unwrap().subject() == Some(items1[i].unwrap().subject_id)
                        &&& items1[i].unwrap().subject_id.stype == SubjectType::IndexNode
                    } by {
                        if i != id as int {
                            assert(items1[i] == items0[i]);
                        }
                    }
                    assert(structure_ok(items1, index1, vac1));
                    // counts
                    lemma_count_rel_none(nv.relations, id);
                    assert forall|t: int| #![trigger items1[t]] live(items1, t) implies items1[t].unwrap().ref_count == ref_total(items1, t as ItemId) by {
                        lemma_count_rel_none(nv.relations, t as ItemId);
                        if items1.len() > items0.len() {
                            lemma_ref_total_push(items0, Some(nv), t as ItemId);
                        } else {
                            lemma_ref_total_update(items0, id as int, Some(nv), t as ItemId);
                        }
                        if t == id as int {
                            assert forall|i: int, q: int| live(items0, i) && 0 <= q < items0[i].unwrap().relations.len() implies #[trigger] items0[i].unwrap().relations[q]
                                != Some(t as ItemId) by {
                                if items0[i].unwrap().relations[q] == Some(t as ItemId) {
                                    assert(live(items0, t));
                                }
                            }
                            lemma_ref_total_absent(items0, t as ItemId);
                        } else {
                            assert(items1[t] == items0[t]);
                        }
                    }
                    assert forall|i: int| #![trigger items1[i]] live(items1, i) && i != id as int implies live(items0, i) && same_item(items0[i].unwrap(), items1[i].unwrap()) by {
                        assert(items1[i] == items0[i]);
                    }
                    assert forall|i: int| #![trigger items0[i]] live(items0, i) && i != id as int && items0[i].unwrap().head is Some implies live(items1, i) by {
                        assert(items1[i] == items0[i]);
                    }
                    lemma_keeps_heads(items0, index0, items1, index1, id as int);
                }
                id
            },
        }
    }

    /// The edit counter of subject `s` while it holds a head, 0 otherwise.
    pub closed spec fn edit_count(&self, s: SubjectId) -> usize {
        edit_count_of(self.items_v(), s)
    }

    /// Drops the head of live item `j`, and the item itself when nothing points to it.
    fn unset_head(&mut self, j: ItemId)
        requires
            old(self).wf(),
            live(old(self).items_v(), j as int),
        ensures
            final(self).wf(),
            final(self).heads() == old(self).heads().remove(old(self).items_v()[j as int].unwrap().subject_id),
            final(self).items_v().len() == old(self).items_v().len(),
            keeps(old(self).items_v(), final(self).items_v(), j as int),
            live(final(self).items_v(), j as int) ==> final(self).items_v()[j as int].unwrap().subject_id == old(
                self,
            ).items_v()[j as int].unwrap().subject_id && final(self).items_v()[j as int].unwrap().relations == old(
                self,
            ).items_v()[j as int].unwrap().relations,
    {
        let ghost items0 = self.items_v();
        let ghost index0 = self.index@;
        let ghost vac0 = self.vacancies@;
        let ghost before = self.items@;
        proof {
            assert(items0[j as int] == opt_item_view(self.items@[j as int]));
        }
        match &mut self.items[j] {
            Some(it) => {
                it.head = None;
            },
            None => {},
        }
        let ghost x = ItemView { head: None, ..items0[j as int].unwrap() };
        proof {
            assert(self.items@ =~= before.update(j as int, self.items@[j as int]));
            assert(self.items_v() =~= items0.update(j as int, Some(x)));
            lemma_update_same_relations(items0, index0, vac0, j as int, x);
        }
        let ghost items1 = self.items_v();
        self.conditional_remove_item(j);
        proof {
            let fin = self.items_v();
            assert forall|i: int| #![trigger fin[i]] live(fin, i) && i != j as int implies live(items0, i) && same_item(items0[i].unwrap(), fin[i].unwrap()) by {
                assert(items1[i] is Some);
            }
            assert forall|i: int| #![trigger items0[i]] live(items0, i) && i != j as int && items0[i].unwrap().head is Some implies live(fin, i) by {
                assert(items1[i] == items0[i]);
            }
        }
    }

    /// Drops the head of subject `s` unless its edit counter moved from `edit_counter`.
    fn try_remove_head(&mut self, s: SubjectId, edit_counter: usize) -> (r: bool)
        requires
            old(self).wf(),
        ensures
            final(self).wf(),
            old(self).heads().contains_key(s) && edit_counter == old(self).edit_count(s) ==> r,
            r ==> final(self).heads() == old(self).heads().remove(s),
            !r ==> final(self).heads() == old(self).heads(),
            forall|u: SubjectId, p: int|
                0 <= p < STASH_RELATION_SLOTS && final(self).heads().contains_key(u) ==> #[trigger] final(self).relation(u, p)
                    == old(self).relation(u, p),
    {
        let ghost items0 = self.items_v();
        let ghost index0 = self.index@;
        let ghost vac0 = self.vacancies@;
        match self.get_item_id_for_subject(s) {
            Some(i) => {
                proof {
                    assert(items0[i as int] == opt_item_view(self.items@[i as int]));
                }
                let counter = match &self.items[i] {
                    Some(it) => it.edit_counter,
                    None => 0,
                };
                if counter != edit_counter {
                    proof {
                        if heads_of(items0).contains_key(s) {
                            let j = choose|j: int| live_head(items0, j, s);
                            lemma_live_unique(items0, index0, i as int, j);
                            lemma_edit_count_live(items0, index0, i as int);
                        }
                    }
                    return false;
                }
                let ghost before = self.items@;
                match &mut self.items[i] {
                    Some(it) => {
                        it.edit_counter = it.edit_counter.wrapping_add(1);
                    },
                    None => {},
                }
                proof {
                    let x = ItemView { edit_counter: self.items_v()[i as int].unwrap().edit_counter, ..items0[i as int].unwrap() };
                    assert(self.items@ =~= before.update(i as int, self.items@[i as int]));
                    assert(self.items_v() =~= items0.update(i as int, Some(x)));
                    lemma_update_same_relations(items0, index0, vac0, i as int, x);
                    if items0[i as int].unwrap().head is Some {
                        assert(heads_of(items0).insert(s, items0[i as int].unwrap().head.unwrap()) =~= heads_of(items0)) by {
                            lemma_heads_of_live(items0, index0, i as int);
                        }
                    } else {
                        assert(heads_of(items0).remove(s) =~= heads_of(items0)) by {
                            lemma_heads_of_headless(items0, index0, i as int);
                        }
                    }
                }
                let ghost items1 = self.items_v();
                self.unset_head(i);
                proof {
                    let fin = self.items_v();
                    assert forall|u: SubjectId, p: int|
                        0 <= p < STASH_RELATION_SLOTS && heads_of(fin).contains_key(u) implies #[trigger] relation_of(fin, u, p)
                            == relation_of(items0, u, p) by {
                        let j = choose|j: int| live_head(fin, j, u);
                        assert(live(fin, j) && fin[j].unwrap().subject_id == u);
                        lemma_relation_frame(items1, index0, fin, self.index@, i as int, u, p);
                        assert(items1[j] is Some);
                        assert(live(items1, j) && items1[j].unwrap().subject_id == u);
                        assert(keeps(items0, items1, i as int)) by {
                            assert forall|q: int| #![trigger items1[q]] live(items1, q) && q != i as int implies live(items0, q) && same_item(items0[q].unwrap(), items1[q].unwrap()) by {}
                            assert forall|q: int| #![trigger items0[q]] live(items0, q) && q != i as int && items0[q].unwrap().head is Some implies live(items1, q) by {}
                        }
                        lemma_relation_frame(items0, index0, items1, index0, i as int, u, p);
                    }
                }
                true
            },
            None => {
                proof {
                    if heads_of(items0).contains_key(s) {
                        let j = choose|j: int| live_head(items0, j, s);
                        assert(live(items0, j));
                    }
                    assert(heads_of(items0).remove(s) =~= heads_of(items0));
                }
                true
            },
        }
    }

    /// The resident head of subject `s` with its edit counter.
    fn get_head_and_editcount(&self, s: SubjectId) -> (r: Option<(MemoRefHead, usize)>)
        requires
            self.wf(),
        ensures
            r matches Some(p) ==> self.heads().contains_key(s) && p.0@ == self.heads()[s] && p.1 == self.edit_count(s),
            r is None ==> !self.heads().contains_key(s) && self.edit_count(s) == 0,
    {
        let ghost items = self.items_v();
        match self.get_item_id_for_subject(s) {
            Some(i) => {
                proof {
                    assert(items[i as int] == opt_item_view(self.items@[i as int]));
                }
                match &self.items[i] {
                    Some(item) => {
                        match &item.head {
                            Some(h) => {
                                proof {
                                    lemma_heads_of_live(items, self.index@, i as int);
                                    lemma_edit_count_live(items, self.index@, i as int);
                                }
                                Some((h.clone_head(), item.edit_counter))
                            },
                            None => {
                                proof {
                                    lemma_heads_of_headless(items, self.index@, i as int);
                                }
                                None
                            },
                        }
                    },
                    None => None,
                }
            },
            None => {
                proof {
                    if heads_of(items).contains_key(s) {
                        let j = choose|j: int| live_head(items, j, s);
                        assert(live(items, j));
                    }
                }
                None
            },
        }
    }

    /// The subject that slot `p` of subject `s` points to.
    pub closed spec fn relation(&self, s: SubjectId, p: int) -> Option<SubjectId> {
        relation_of(self.items_v(), s, p)
    }

    /// Sets the head of subject `s` and records its relations from
    /// `edge_links`, in order (a later link for a slot wins over an earlier
    /// one; a link to a head without a subject sets nothing), unless the
    /// subject's edit counter moved from `edit_counter`. Slots that no link
    /// sets keep what they pointed to.
    #[verifier::rlimit(80)]
    fn try_set_head(&mut self, s: SubjectId, new_head: MemoRefHead, edge_links: &Vec<EdgeLink>, edit_counter: usize) -> (r: bool)
        requires
            old(self).wf(),
            new_head@.subject() == Some(s),
            s.stype == SubjectType::IndexNode,
        ensures
            final(self).wf(),
            r == (edit_counter == old(self).edit_count(s)),
            !r ==> final(self).heads() == old(self).heads(),
            r ==> final(self).heads() == old(self).heads().insert(s, new_head@),
            r && old(self).heads().contains_key(s) && edit_counter < usize::MAX ==> final(self).edit_count(s) == edit_counter + 1,
            r ==> forall|p: int|
                #![trigger final(self).relation(s, p)]
                0 <= p < STASH_RELATION_SLOTS ==> final(self).relation(s, p) == slot_after(
                    link_views(edge_links@),
                    p,
                    old(self).relation(s, p),
                ),
        {
        let ghost items00 = self.items_v();
        let item_id = self.assert_item(s);
        let ghost items0 = self.items_v();
        let ghost index0 = self.index@;
        let ghost vac0 = self.vacancies@;
        proof {
            assert(items0[item_id as int] == opt_item_view(self.items@[item_id as int]));
            if items0[item_id as int].unwrap().head is Some {
                lemma_edit_count_live(items0, index0, item_id as int);
                assert(live(items00, item_id as int));
                assert(items0 == items00);
            } else {
                lemma_heads_of_headless(items0, index0, item_id as int);
                if live(items00, item_id as int) {
                    assert(items0 == items00);
                } else {
                    assert(!heads_of(items00).contains_key(s));
                }
            }
        }
        let seen = match &self.items[item_id] {
            Some(it) => if it.head.is_some() {
                it.edit_counter
            } else {
                0
            },
            None => 0,
        };
        if seen != edit_counter {
            return false;
        }
        let ghost before = self.items@;
        let ghost nh = new_head@;
        match &mut self.items[item_id] {
            Some(it) => {
                it.head = Some(new_head);
                it.edit_counter = it.edit_counter.wrapping_add(1);
            },
            None => {},
        }
        proof {
            let x = ItemView { head: Some(nh), edit_counter: self.items_v()[item_id as int].unwrap().edit_counter, ..items0[item_id as int].unwrap() };
            assert(self.items@ =~= before.update(item_id as int, self.items@[item_id as int]));
            assert(self.items_v() =~= items0.update(item_id as int, Some(x)));
            lemma_update_same_relations(items0, index0, vac0, item_id as int, x);
        }
        let ghost c1 = self.items_v()[item_id as int].unwrap().edit_counter;
        proof {
            if heads_of(items00).contains_key(s) && edit_counter < usize::MAX {
                if items0[item_id as int].unwrap().head is None {
                    lemma_heads_of_headless(items0, index0, item_id as int);
                }
                assert(c1 == edit_counter + 1);
            }
        }
        let ghost lv = link_views(edge_links@);
        proof {
            assert forall|p: int| 0 <= p < STASH_RELATION_SLOTS implies slot_holds(
                self.items_v(),
                item_id as int,
                p,
                link_effect(lv.take(0), p),
                relation_of(items00, s, p),
            ) by {
                assert(lv.take(0) =~= Seq::<LinkView>::empty());
                let cur = self.items_v();
                if live(items00, item_id as int) {
                    assert(items0 == items00);
                    let j = choose|j: int| live(items00, j) && #[trigger] items00[j].unwrap().subject_id == s;
                    lemma_live_unique(items00, index0, item_id as int, j);
                    match items0[item_id as int].unwrap().relations[p] {
                        Some(t) => {
                            assert(live(items0, t as int));
                            if t != item_id {
                                assert(cur[t as int] == items0[t as int]);
                            }
                        },
                        None => {},
                    }
                } else {
                    assert(!(exists|j: int| live(items00, j) && #[trigger] items00[j].unwrap().subject_id == s));
                }
            }
        }
        let n = edge_links.len();
        let mut k: usize = 0;
        while k < n
            invariant
                n == edge_links@.len(),
                lv == link_views(edge_links@),
                k <= n,
                self.wf(),
                live(self.items_v(), item_id as int),
                self.items_v()[item_id as int].unwrap().subject_id == s,
                self.items_v()[item_id as int].unwrap().head == Some(nh),
                self.items_v()[item_id as int].unwrap().edit_counter == c1,
                self.heads() == heads_of(items00).insert(s, nh),
                forall|p: int|
                    0 <= p < STASH_RELATION_SLOTS ==> slot_holds(
                        self.items_v(),
                        item_id as int,
                        p,
                        #[trigger] link_effect(lv.take(k as int), p),
                        relation_of(items00, s, p),
                    ),
            decreases n - k,
        {
            let ghost cur = self.items_v();
            let ghost rels_cur = cur[item_id as int].unwrap().relations;
            let ghost lk = lv[k as int];
            proof {
                assert(lk == edge_links@[k as int]@);
                assert(lv.take(k + 1).drop_last() =~= lv.take(k as int));
                assert(lv.take(k + 1).last() == lk);
                assert(rels_cur.len() == STASH_RELATION_SLOTS);
            }
            match &edge_links[k] {
                EdgeLink::Vacant { slot_id } => {
                    self.set_relation(item_id, *slot_id as usize, None);
                    proof {
                        let nxt = self.items_v();
                        let q = *slot_id as int;
                        assert forall|p: int| 0 <= p < STASH_RELATION_SLOTS implies slot_holds(
                            nxt,
                            item_id as int,
                            p,
                            #[trigger] link_effect(lv.take(k + 1), p),
                            relation_of(items00, s, p),
                        ) by {
                            assert(slot_holds(cur, item_id as int, p, link_effect(lv.take(k as int), p), relation_of(items00, s, p)));
                            if p != q {
                                assert(link_effect(lv.take(k + 1), p) == link_effect(lv.take(k as int), p));
                                assert(nxt[item_id as int].unwrap().relations[p] == rels_cur[p]);
                                match rels_cur[p] {
                                    Some(t) => {
                                        assert(live(nxt, t as int));
                                        if t != item_id {
                                            assert(nxt[t as int] is Some);
                                        }
                                    },
                                    None => {},
                                }
                            }
                        }
                    }
                },
                EdgeLink::Occupied { slot_id, head } => {
                    match head {
                        MemoRefHead::Subject { subject_id, .. } => {
                            let rel = self.assert_item(*subject_id);
                            let ghost mid = self.items_v();
                            proof {
                                if live(cur, rel as int) {
                                    assert(mid == cur);
                                } else {
                                    assert(rel != item_id);
                                    assert(mid[item_id as int] == cur[item_id as int]);
                                }
                                assert(mid[item_id as int].unwrap().relations == rels_cur);
                            }
                            self.set_relation(item_id, *slot_id as usize, Some(rel));
                            proof {
                                let nxt = self.items_v();
                                let q = *slot_id as int;
                                assert(lk == LinkView::Occupied(*slot_id, head@));
                                assert(head@.subject() == Some(*subject_id));
                                assert forall|p: int| 0 <= p < STASH_RELATION_SLOTS implies slot_holds(
                                    nxt,
                                    item_id as int,
                                    p,
                                    #[trigger] link_effect(lv.take(k + 1), p),
                                    relation_of(items00, s, p),
                                ) by {
                                    assert(slot_holds(cur, item_id as int, p, link_effect(lv.take(k as int), p), relation_of(items00, s, p)));
                                    if p == q {
                                        assert(link_effect(lv.take(k + 1), p) == Some(Some(*subject_id)));
                                        assert(nxt[item_id as int].unwrap().relations[p] == Some(rel));
                                        assert(live(nxt, rel as int));
                                        if rel != item_id {
                                            assert(nxt[rel as int] is Some);
                                        }
                                    } else {
                                        assert(link_effect(lv.take(k + 1), p) == link_effect(lv.take(k as int), p));
                                        assert(nxt[item_id as int].unwrap().relations[p] == rels_cur[p]);
                                        match rels_cur[p] {
                                            Some(t) => {
                                                assert(live(cur, t as int));
                                                assert(mid[t as int] == cur[t as int]);
                                                assert(live(nxt, t as int));
                                                if t != item_id {
                                                    assert(nxt[t as int] is Some);
                                                    assert(mid[t as int] is Some);
                                                }
                                            },
                                            None => {},
                                        }
                                    }
                                }
                            }
                        },
                        _ => {
                            proof {
                                assert(!(head@ is Subject));
                                assert forall|p: int| 0 <= p < STASH_RELATION_SLOTS implies #[trigger] link_effect(lv.take(k + 1), p)
                                    == link_effect(lv.take(k as int), p) by {}
                            }
                        },
                    }
                },
            }
            k = k + 1;
        }
        proof {
            let fin = self.items_v();
            lemma_edit_count_live(fin, self.index@, item_id as int);
            assert(lv.take(n as int) =~= lv);
            assert forall|i: int| live(fin, i) && #[trigger] fin[i].unwrap().subject_id == s implies i == item_id as int by {
                lemma_live_unique(fin, self.index@, i, item_id as int);
            }
            assert forall|p: int|
                #![trigger fin[item_id as int].unwrap().relations[p]]
                0 <= p < STASH_RELATION_SLOTS implies relation_of(fin, s, p) == slot_after(lv, p, relation_of(items00, s, p)) by {
                assert(slot_holds(fin, item_id as int, p, link_effect(lv.take(n as int), p), relation_of(items00, s, p)));
                assert(live(fin, item_id as int) && fin[item_id as int].unwrap().subject_id == s);
            }
        }
        true
    }

    /// Prunes the resident head of `compare_head`'s subject when
    /// `compare_head` (the edge head that a parent node holds) descends or
    /// contains it: the stash then says nothing that the parent does not.
    /// Returns whether a head was removed. A memo that cannot be retrieved
    /// counts as not descended.
    pub fn prune_head(&mut self, slab: &Slab, compare_head: &MemoRefHead) -> (r: bool)
        requires
            old(self).wf(),
            slab.wf(),
        ensures
            final(self).wf(),
            final(self).heads() == prune_one(slab.memos(), old(self).heads(), compare_head@),
            r == (final(self).heads() != old(self).heads()),
            !r ==> *final(self) == *old(self),
            forall|u: SubjectId, p: int|
                0 <= p < STASH_RELATION_SLOTS && final(self).heads().contains_key(u) ==> #[trigger] final(self).relation(u, p)
                    == old(self).relation(u, p),
    {
        let ghost memos = slab.memos();
        match compare_head {
            MemoRefHead::Subject { subject_id, .. } => {
                match self.get_head_and_editcount(*subject_id) {
                    Some((head, edit_counter)) => {
                        match compare_head.descends_or_contains(&head, slab) {
                            Ok(d) => {
                                if d {
                                    let removed = self.try_remove_head(*subject_id, edit_counter);
                                    proof {
                                        assert(removed);
                                        assert(old(self).heads().contains_key(*subject_id));
                                        assert(old(self).heads().remove(*subject_id) != old(self).heads()) by {
                                            assert(!old(self).heads().remove(*subject_id).contains_key(*subject_id));
                                        }
                                    }
                                    return true;
                                }
                                false
                            },
                            Err(_) => false,
                        }
                    },
                    None => false,
                }
            },
            _ => false,
        }
    }

    /// Applies a head of an index node to the stash, so that later queries
    /// take it into account, and returns the subject's head after the
    /// application: the product of the head already in the stash (if any)
    /// and the given one. The relations of the subject are recorded from its
    /// projected edges, and the heads that those edges descend or contain are
    /// pruned. Assuming tree-structured data, the stash says the same after
    /// this pruning as before it, in less space.
    pub fn apply_head(&mut self, slab: &Slab, apply_head: &MemoRefHead) -> (r: Result<MemoRefHead, WriteError>)
        requires
            old(self).wf(),
            slab.wf(),
            apply_head@.subject() is Some,
            apply_head@.subject().unwrap().stype == SubjectType::IndexNode,
        ensures
            final(self).wf(),
            applied_head(slab.memos(), old(self).heads(), apply_head@) is None ==> {
                &&& r == Err::<MemoRefHead, WriteError>(WriteError::RetrieveError(Box::new(RetrieveError::NotFound)))
                &&& final(self).heads() == old(self).heads()
            },
            applied_head(slab.memos(), old(self).heads(), apply_head@) matches Some((h1, applied)) ==> {
                &&& r matches Ok(x) && x@ == h1
                &&& !applied ==> final(self).heads() == old(self).heads()
                &&& applied ==> final(self).heads() == prune_links(
                    slab.memos(),
                    old(self).heads().insert(apply_head@.subject().unwrap(), h1),
                    edge_links_spec(slab.memos(), h1),
                )
                &&& applied && final(self).heads().contains_key(apply_head@.subject().unwrap()) ==> forall|p: int|
                    0 <= p < STASH_RELATION_SLOTS ==> {
                        &&& (#[trigger] edge_links_spec(slab.memos(), h1)[p] is Vacant ==> final(self).relation(
                            apply_head@.subject().unwrap(),
                            p,
                        ) is None)
                        &&& (edge_links_spec(slab.memos(), h1)[p] matches LinkView::Occupied(_, c) && c is Subject
                            ==> final(self).relation(apply_head@.subject().unwrap(), p) == edge_links_spec(slab.memos(), h1)[p]->Occupied_1.subject())
                    }
            },
    {
        let ghost memos = slab.memos();
        let ghost heads0 = self.heads();
        let subject_id = match apply_head.subject_id() {
            Some(s) => s,
            None => {
                return Err(WriteError::BadTarget);
            },
        };
        let (new_head, edit_counter) = match self.get_head_and_editcount(subject_id) {
            Some((head, ec)) => {
                let mut head = head;
                proof {
                    lemma_apply_fold_subject(memos, heads0[subject_id], apply_head@.refs(), false);
                }
                let did_apply = head.apply(apply_head, slab);
                match did_apply {
                    Ok(b) => {
                        if !b {
                            return Ok(head);
                        }
                    },
                    Err(e) => {
                        return Err(e);
                    },
                }
                (head, ec)
            },
            None => (apply_head.clone_head(), 0),
        };
        let ghost h1 = new_head@;
        let links = new_head.project_all_edge_links_including_empties(slab);
        proof {
            assert forall|p: int| 0 <= p < STASH_RELATION_SLOTS implies link_slot(#[trigger] links@[p]@) == p by {}
        }
        let set = self.try_set_head(subject_id, new_head.clone_head(), &links, edit_counter);
        proof {
            assert(set);
            let lv = link_views(links@);
            assert(lv.take(STASH_RELATION_SLOTS as int) =~= lv);
            assert forall|p: int| 0 <= p < STASH_RELATION_SLOTS implies link_slot(#[trigger] lv[p]) == p by {
                assert(lv[p] == links@[p]@);
            }
            assert forall|p: int| 0 <= p < STASH_RELATION_SLOTS implies {
                &&& (#[trigger] links@[p]@ is Vacant ==> self.relation(subject_id, p) is None)
                &&& (links@[p]@ matches LinkView::Occupied(_, h) && h is Subject ==> self.relation(subject_id, p)
                    == links@[p]@->Occupied_1.subject())
            } by {
                lemma_link_effect_in_order(lv, STASH_RELATION_SLOTS as int, p);
                assert(lv[p] == links@[p]@);
                assert(self.relation(subject_id, p) == slot_after(lv, p, old(self).relation(subject_id, p)));
            }
        }
        let ghost heads1 = self.heads();
        let ghost links_v = edge_links_spec(memos, h1);
        let ghost set_state = self;
        proof {
            assert forall|p: int| 0 <= p < STASH_RELATION_SLOTS implies #[trigger] links@[p]@ == links_v[p] by {}
            assert(links_v.skip(0) =~= links_v);
        }
        let mut k: usize = 0;
        while k < links.len()
            invariant
                self.wf(),
                slab.wf(),
                memos == slab.memos(),
                links@.len() == STASH_RELATION_SLOTS,
                links_v.len() == STASH_RELATION_SLOTS,
                forall|p: int| 0 <= p < STASH_RELATION_SLOTS ==> #[trigger] links@[p]@ == links_v[p],
                k <= links@.len(),
                prune_links(memos, heads1, links_v) == prune_links(memos, self.heads(), links_v.skip(k as int)),
                self.heads().contains_key(subject_id) ==> forall|p: int|
                    0 <= p < STASH_RELATION_SLOTS ==> #[trigger] self.relation(subject_id, p) == set_state.relation(
                        subject_id,
                        p,
                    ),
            decreases links@.len() - k,
        {
            proof {
                assert(links_v.skip(k as int)[0] == links_v[k as int]);
                assert(links_v.skip(k as int).drop_first() =~= links_v.skip(k + 1));
            }
            let ghost cur = self.heads();
            let ghost cur_state = self;
            match &links[k] {
                EdgeLink::Occupied { head, .. } => {
                    proof {
                        assert(links_v[k as int] == links@[k as int]@);
                        assert(links_v[k as int] matches LinkView::Occupied(_, c) && c == head@);
                    }
                    self.prune_head(slab, head);
                    proof {
                        assert(prune_links(memos, cur, links_v.skip(k as int)) == prune_links(memos, self.heads(), links_v.skip(k + 1)));
                        if self.heads().contains_key(subject_id) {
                            assert(cur.contains_key(subject_id));
                            assert forall|p: int| 0 <= p < STASH_RELATION_SLOTS implies #[trigger] self.relation(subject_id, p)
                                == set_state.relation(subject_id, p) by {
                                assert(self.relation(subject_id, p) == cur_state.relation(subject_id, p));
                            }
                        }
                    }
                },
                EdgeLink::Vacant { .. } => {
                    proof {
                        assert(links_v[k as int] == links@[k as int]@);
                        assert(prune_links(memos, cur, links_v.skip(k as int)) == prune_links(memos, self.heads(), links_v.skip(k + 1)));
                    }
                },
            }
            k = k + 1;
        }
        proof {
            assert(links_v.skip(STASH_RELATION_SLOTS as int) =~= Seq::<LinkView>::empty());
            assert(self.heads() == prune_links(memos, heads0.insert(subject_id, h1), links_v));
            if self.heads().contains_key(subject_id) {
                assert forall|p: int| 0 <= p < STASH_RELATION_SLOTS implies {
                    &&& (#[trigger] links_v[p] is Vacant ==> self.relation(subject_id, p) is None)
                    &&& (links_v[p] matches LinkView::Occupied(_, c) && c is Subject ==> self.relation(subject_id, p)
                        == links_v[p]->Occupied_1.subject())
                } by {
                    assert(links@[p]@ == links_v[p]);
                    assert(self.relation(subject_id, p) == set_state.relation(subject_id, p));
                }
            }
        }
        Ok(new_head)
    }

    /// The short texts of the resident heads, in index order (by subject):
    /// each subject, then `>` and the subjects that its relations point to.
    pub closed spec fn concise(&self) -> Seq<Seq<char>> {
        concise_upto(self.items_v(), self.index@, self.index@.len() as int)
    }

    /// The short texts of the resident heads are those of the subjects with a
    /// head, in the stash's subject order, each with what its relation slots
    /// point to.
    pub proof fn lemma_concise(&self)
        requires
            self.wf(),
        ensures
            self.concise() == concise_of(self.subjects(), self.heads(), |u: SubjectId, p: int| self.relation(u, p)),
    {
        lemma_concise_upto(self.items_v(), self.index@, self.vacancies@, self.index@.len() as int);
        assert(self.index@.map_values(|e: (SubjectId, ItemId)| e.0).take(self.index@.len() as int) =~= self.subjects());
        let r1 = |u: SubjectId, p: int| relation_of(self.items_v(), u, p);
        let r2 = |u: SubjectId, p: int| self.relation(u, p);
        assert(r1 =~= r2);
    }

    /// The subjects that the stash knows, with or without a head, in index order.
    pub fn subject_ids(&self) -> (r: Vec<SubjectId>)
        ensures
            r@ == self.subjects(),
    {
        let mut r: Vec<SubjectId> = Vec::new();
        let mut k: usize = 0;
        while k < self.index.len()
            invariant
                k <= self.index@.len(),
                r@ == self.index@.take(k as int).map_values(|e: (SubjectId, ItemId)| e.0),
            decreases self.index@.len() - k,
        {
            r.push(self.index[k].0);
            proof {
                assert(self.index@.take(k + 1).map_values(|e: (SubjectId, ItemId)| e.0) =~= self.index@.take(k as int).map_values(
                    |e: (SubjectId, ItemId)| e.0,
                ).push(self.index@[k as int].0));
            }
            k = k + 1;
        }
        proof {
            assert(self.index@.take(self.index@.len() as int) =~= self.index@);
        }
        r
    }

    /// An iterator over the resident heads.
    pub fn iter(&self) -> (r: StashIterator)
        ensures
            r@ == Seq::<SubjectId>::empty(),
    {
        StashIterator::new()
    }

    /// The text of a live item with a head.
    fn item_text_of(&self, i: ItemId) -> (r: String)
        requires
            self.wf(),
            live(self.items_v(), i as int),
        ensures
            r@ == item_text(self.items_v(), self.items_v()[i as int].unwrap()),
    {
        let ghost items = self.items_v();
        proof {
            assert(items[i as int] == opt_item_view(self.items@[i as int]));
        }
        match &self.items[i] {
            Some(item) => {
                let ghost rels = item.relations@;
                let mut rel_out = String::new();
                let mut any = false;
                let mut p: usize = 0;
                proof {
                    assert(rels.take(0) =~= Seq::<Option<ItemId>>::empty());
                    reveal_strlit(",");
                }
                while p < item.relations.len()
                    invariant
                        self.wf(),
                        items == self.items_v(),
                        live(items, i as int),
                        rels == items[i as int].unwrap().relations,
                        rels == item.relations@,
                        p <= rels.len(),
                        rel_out@ == join_commas(rel_texts(items, rels.take(p as int))),
                        any == (rel_texts(items, rels.take(p as int)).len() > 0),
                    decreases rels.len() - p,
                {
                    proof {
                        assert(rels.take(p + 1).drop_last() =~= rels.take(p as int));
                        assert(rels.take(p + 1).last() == rels[p as int]);
                    }
                    match item.relations[p] {
                        Some(t) => {
                            proof {
                                assert(live(items, t as int));
                                assert(items[t as int] == opt_item_view(self.items@[t as int]));
                            }
                            let ghost before = rel_texts(items, rels.take(p as int));
                            let ghost before_out = rel_out@;
                            proof {
                                reveal_strlit(",");
                            }
                            if any {
                                rel_out.append(",");
                            }
                            match &self.items[t] {
                                Some(target) => {
                                    push_subject_text(&mut rel_out, &target.subject_id);
                                },
                                None => {},
                            }
                            any = true;
                            proof {
                                let after = rel_texts(items, rels.take(p + 1));
                                assert(after == before.push(subject_text(items[t as int].unwrap().subject_id)));
                                assert(after.drop_last() =~= before);
                                if before.len() == 0 {
                                    assert(rel_out@ =~= join_commas(after));
                                } else {
                                    assert(rel_out@ =~= join_commas(after));
                                }
                            }
                        },
                        None => {
                            proof {
                                assert(rel_texts(items, rels.take(p + 1)) =~= rel_texts(items, rels.take(p as int)));
                            }
                        },
                    }
                    p = p + 1;
                }
                proof {
                    assert(rels.take(rels.len() as int) =~= rels);
                }
                let mut out = String::new();
                push_subject_text(&mut out, &item.subject_id);
                if any {
                    proof { reveal_strlit(">"); }
                    out.append(">");
                    out.append(rel_out.as_str());
                }
                proof {
                    assert(out@ =~= item_text(items, items[i as int].unwrap()));
                }
                out
            },
            None => String::new(),
        }
    }

    /// The short texts of the resident heads, in index order (by subject):
    /// each subject, then `>` and the subjects that its relations point to,
    /// as in `I4>I3`.
    pub fn concise_contents(&self) -> (r: Vec<String>)
        requires
            self.wf(),
        ensures
            r@.map_values(|t: String| t@) == self.concise(),
    {
        let ghost items = self.items_v();
        let mut r: Vec<String> = Vec::new();
        let mut k: usize = 0;
        while k < self.index.len()
            invariant
                self.wf(),
                items == self.items_v(),
                k <= self.index@.len(),
                r@.map_values(|t: String| t@) == concise_upto(items, self.index@, k as int),
            decreases self.index@.len() - k,
        {
            let i = self.index[k].1;
            proof {
                assert(live(items, i as int));
                assert(items[i as int] == opt_item_view(self.items@[i as int]));
            }
            let has_head = match &self.items[i] {
                Some(item) => item.head.is_some(),
                None => false,
            };
            let ghost before = r@;
            if has_head {
                let t = self.item_text_of(i);
                r.push(t);
                proof {
                    assert(r@.map_values(|t: String| t@) =~= before.map_values(|t: String| t@).push(item_text(items, items[i as int].unwrap())));
                }
            }
            k = k + 1;
        }
        r
    }

    /// Finitely many subjects hold a resident head.
    pub proof fn lemma_heads_finite(&self)
        requires
            self.wf(),
        ensures
            self.heads().dom().finite(),
    {
        let items = self.items_v();
        let subjects = Seq::new(
            items.len(),
            |i: int| match items[i] {
                Some(v) => v.subject_id,
                None => SubjectId { id: 0, stype: SubjectType::Anonymous },
            },
        );
        assert forall|s: SubjectId| #[trigger] self.heads().dom().contains(s) implies subjects.to_set().contains(s) by {
            let i = choose|i: int| live_head(items, i, s);
            assert(subjects[i] == s);
        }
        vstd::seq_lib::seq_to_set_is_finite(subjects);
        vstd::set_lib::lemma_set_subset_finite(subjects.to_set(), self.heads().dom());
    }

    /// Each resident head is the head of its own subject, an index node.
    pub proof fn lemma_heads_shape(&self)
        requires
            self.wf(),
        ensures
            forall|s: SubjectId| #[trigger] self.heads().contains_key(s) ==> self.heads()[s].subject() == Some(s)
                && s.stype == SubjectType::IndexNode,
    {
        let items = self.items_v();
        assert forall|s: SubjectId| #[trigger] self.heads().contains_key(s) implies self.heads()[s].subject() == Some(s)
            && s.stype == SubjectType::IndexNode by {
            let i = choose|i: int| live_head(items, i, s);
            assert(items[i] is Some);
        }
    }

    /// The resident head of subject `s`, if any.
    pub fn get_head(&self, s: SubjectId) -> (r: Option<MemoRefHead>)
        requires
            self.wf(),
        ensures
            r matches Some(h) ==> self.heads().contains_key(s) && h@ == self.heads()[s],
            r is None ==> !self.heads().contains_key(s),
    {
        let ghost items = self.items_v();
        match self.get_item_id_for_subject(s) {
            Some(i) => {
                proof {
                    assert(items[i as int] == opt_item_view(self.items@[i as int]));
                }
                match &self.items[i] {
                    Some(item) => {
                        match &item.head {
                            Some(h) => {
                                proof {
                                    lemma_heads_of_live(items, self.index@, i as int);
                                }
                                Some(h.clone_head())
                            },
                            None => {
                                proof {
                                    lemma_heads_of_headless(items, self.index@, i as int);
                                }
                                None
                            },
                        }
                    },
                    None => None,
                }
            },
            None => {
                proof {
                    if heads_of(items).contains_key(s) {
                        let j = choose|j: int| live_head(items, j, s);
                        assert(live(items, j));
                    }
                }
                None
            },
        }
    }
}

} // verus!
