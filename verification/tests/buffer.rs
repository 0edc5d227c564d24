use unbase::buffer::{EdgeSetBufElement, HeadBufElement, MemoBodyBufElement, MemoBuf, RelationSetBufElement, SlabStateBufHelper, BufferHelper};
use unbase::memorefhead::MemoRefHead;
use unbase::slab::{EdgeSet, MemoBody, MemoRef, RelationSet, Slab, SlabId, SubjectId, SubjectType, ValueSet};

#[test]
fn head_buffer_roundtrip() {
    let helper = SlabStateBufHelper {};
    let s = SubjectId::index_test(4);
    let head = MemoRefHead::Subject { subject_id: s, head: vec![MemoRef { memo_id: 3, subject_id: s }, MemoRef { memo_id: 8, subject_id: s }] };
    let buf = HeadBufElement::from_head(&head, &helper);
    match &buf {
        HeadBufElement::Entity { entity, head } => {
            assert_eq!(*entity, s);
            assert_eq!(*head, vec![3, 8]);
        },
        _ => panic!("expected an entity head"),
    }
    let back = buf.to_head(&helper);
    assert_eq!(back.subject_id(), Some(s));
    assert_eq!(back.memo_ids(), vec![3, 8]);
    assert!(matches!(HeadBufElement::from_head(&MemoRefHead::Null, &helper), HeadBufElement::Null));
}

#[test]
fn relation_buffer_roundtrip() {
    let helper = SlabStateBufHelper {};
    let rs = RelationSet(vec![(0, Some(SubjectId::index_test(2))), (7, None)]);
    let buf = RelationSetBufElement::from_relationset(&rs, &helper);
    assert_eq!(buf.slots, vec![(0, Some(SubjectId::index_test(2))), (7, None)]);
    let back = buf.to_relationset(&helper);
    assert_eq!(back.0, rs.0);
}

#[test]
fn edge_buffer_roundtrip() {
    let helper = SlabStateBufHelper {};
    let s = SubjectId::index_test(2);
    let es = EdgeSet(vec![(1, MemoRefHead::Subject { subject_id: s, head: vec![MemoRef { memo_id: 5, subject_id: s }] })]);
    let buf = EdgeSetBufElement::from_edgeset(&es, &helper);
    assert_eq!(buf.v.len(), 1);
    let back = buf.to_edgeset(&helper);
    assert_eq!(back.0.len(), 1);
    assert_eq!(back.0[0].0, 1);
    assert_eq!(back.0[0].1.memo_ids(), vec![5]);
    assert_eq!(back.0[0].1.subject_id(), Some(s));
}

#[test]
fn memo_buffer_of_edit() {
    let helper = SlabStateBufHelper {};
    let mut slab = Slab::new_with_id(SlabId(1));
    let s = SubjectId { id: 1, stype: SubjectType::Record };
    let m = slab.new_memo_basic_noparent(s, MemoBody::Edit(ValueSet(vec![("a".to_string(), "b".to_string())])));
    let memo = slab.get_memo(&m).unwrap();
    let buf = MemoBuf::<SubjectId, u64, SlabId>::from_memo(memo, &helper);
    assert_eq!(buf.entity, Some(s));
    assert!(matches!(buf.parents, HeadBufElement::Null));
    match buf.body {
        MemoBodyBufElement::Edit(e) => assert_eq!(e.edit, vec![("a".to_string(), "b".to_string())]),
        _ => panic!("expected an edit body"),
    }
}

#[test]
fn slab_state_helper_tokens() {
    let helper = SlabStateBufHelper {};
    let m = MemoRef { memo_id: 12, subject_id: SubjectId::index_test(3) };
    assert_eq!(helper.from_memoref(&m), 12);
    assert_eq!(helper.to_memoref(&12).memo_id, 12);
    assert_eq!(helper.to_slab_id(&helper.from_slab_id(&SlabId(9))), SlabId(9));
    assert_eq!(helper.to_entity_id(&helper.from_entity_id(&SubjectId::index_test(3))), SubjectId::index_test(3));
}
