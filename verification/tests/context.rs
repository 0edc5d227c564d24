use unbase::context::Context;
use unbase::memorefhead::MemoRefHead;
use unbase::slab::{EdgeSet, MemoBody, Slab, SlabId, SubjectId, ValueSet};

fn new_context() -> Context {
    Context::new(Slab::new_with_id(SlabId(1)))
}

fn edit_on(context: &mut Context, head: &MemoRefHead) -> MemoRefHead {
    let subject_id = head.subject_id().unwrap();
    context
        .slab
        .new_memo_basic(subject_id, head.clone_head(), MemoBody::Edit(ValueSet(vec![])))
        .to_head()
}

#[test]
fn context_basic() {
    let mut context = new_context();

    // 4 -> 3 -> 2 -> 1
    let head1 = context.add_test_subject(SubjectId::index_test(1), vec![]);
    let head2 = context.add_test_subject(SubjectId::index_test(2), vec![head1]);
    let head3 = context.add_test_subject(SubjectId::index_test(3), vec![head2]);
    let _head4 = context.add_test_subject(SubjectId::index_test(4), vec![head3]);

    // each preceeding subject should be pruned, leaving us with a fully compacted stash
    assert_eq!(context.stash.concise_contents(), ["I4>I3"], "Valid contents");
}

#[test]
fn context_manual_compaction() {
    let mut context = new_context();

    // 4 -> 3 -> 2 -> 1
    let head1 = context.add_test_subject(SubjectId::index_test(1), vec![]);
    let head2 = context.add_test_subject(SubjectId::index_test(2), vec![head1]);

    {
        // manually defeat compaction
        let head = edit_on(&mut context, &head2);
        context.apply_head(&head).unwrap();
    }

    // additional stuff on I2 should prevent it from being pruned by the I3 edge
    let head3 = context.add_test_subject(SubjectId::index_test(3), vec![head2.clone_head()]);
    let head4 = context.add_test_subject(SubjectId::index_test(4), vec![head3.clone_head()]);

    assert_eq!(context.stash.concise_contents(), ["I2>I1", "I4>I3"], "Valid contents");

    {
        // manually perform compaction
        let updated_head2 = context.stash.get_head(head2.subject_id().unwrap()).unwrap();
        let head = context
            .slab
            .new_memo_basic(head3.subject_id().unwrap(), head3.clone_head(), MemoBody::Edge(EdgeSet(vec![(0, updated_head2)])))
            .to_head();
        context.apply_head(&head).unwrap();
    }

    assert_eq!(context.stash.concise_contents(), ["I3>I2", "I4>I3"], "Valid contents");

    {
        // manually perform compaction
        let updated_head3 = context.stash.get_head(head3.subject_id().unwrap()).unwrap();
        let head = context
            .slab
            .new_memo_basic(head4.subject_id().unwrap(), head4, MemoBody::Edge(EdgeSet(vec![(0, updated_head3)])))
            .to_head();
        context.apply_head(&head).unwrap();
    }

    assert_eq!(context.stash.concise_contents(), ["I4>I3"], "Valid contents");
}

#[test]
fn context_auto_compaction() {
    let mut context = new_context();

    // 4 -> 3 -> 2 -> 1
    let head1 = context.add_test_subject(SubjectId::index_test(1), vec![]);
    let head2 = context.add_test_subject(SubjectId::index_test(2), vec![head1]);

    {
        // manually defeat compaction
        let head = edit_on(&mut context, &head2);
        context.apply_head(&head).unwrap();
    }

    // additional stuff on I2 should prevent it from being pruned by the I3 edge
    let head3 = context.add_test_subject(SubjectId::index_test(3), vec![head2]);
    {
        // manually defeat compaction
        let head = edit_on(&mut context, &head3);
        context.apply_head(&head).unwrap();
    }

    // additional stuff on I3 should prevent it from being pruned by the I4 edge
    let _head4 = context.add_test_subject(SubjectId::index_test(4), vec![head3]);

    assert_eq!(context.stash.concise_contents(), ["I2>I1", "I3>I2", "I4>I3"], "Valid contents");

    context.compact().unwrap();

    assert_eq!(context.stash.concise_contents(), ["I4>I3"], "Valid contents");
}

#[test]
fn context_resident_heads_after_pruning() {
    let mut context = new_context();
    let head1 = context.add_test_subject(SubjectId::index_test(1), vec![]);
    assert_eq!(context.get_resident_subject_head_memo_ids(SubjectId::index_test(1)), vec![0]);
    let head2 = context.add_test_subject(SubjectId::index_test(2), vec![head1]);
    // subject 1 was pruned by the edge of subject 2, which contains its head
    assert!(!context.get_resident_subject_head(SubjectId::index_test(1)).is_some());
    assert_eq!(context.get_resident_subject_head(SubjectId::index_test(2)).memo_ids(), head2.memo_ids());
    assert_eq!(context.stash.subject_ids(), vec![SubjectId::index_test(1), SubjectId::index_test(2)]);
}

#[test]
fn context_apply_same_head_twice_changes_nothing() {
    let mut context = new_context();
    let head1 = context.add_test_subject(SubjectId::index_test(7), vec![]);
    let before = context.stash.concise_contents();
    let again = context.apply_head(&head1).unwrap();
    assert_eq!(again.memo_ids(), head1.memo_ids());
    assert_eq!(context.stash.concise_contents(), before);
}

#[test]
fn context_concurrent_edits_are_both_kept() {
    let mut context = new_context();
    let head1 = context.add_test_subject(SubjectId::index_test(5), vec![]);
    let a = edit_on(&mut context, &head1);
    let b = edit_on(&mut context, &head1);
    context.apply_head(&a).unwrap();
    let merged = context.apply_head(&b).unwrap();
    assert_eq!(merged.memo_ids(), vec![a.memo_ids()[0], b.memo_ids()[0]]);
}

#[test]
fn contextualize_head_applies_the_resident_head() {
    let mut context = new_context();
    let resident = context.add_test_subject(SubjectId::index_test(1), vec![]);
    assert_eq!(resident.memo_ids(), vec![0]);
    // a memo of the same subject that does not descend the resident one
    let other = context
        .slab
        .new_memo_basic_noparent(SubjectId::index_test(1), MemoBody::Edit(ValueSet(vec![])))
        .to_head();
    let read = context.contextualize_head(&other).ok().unwrap();
    assert_eq!(read.memo_ids(), vec![1, 0]);
    // a head that descends the resident one replaces it
    let newer = edit_on(&mut context, &resident);
    let read = context.contextualize_head(&newer).ok().unwrap();
    assert_eq!(read.memo_ids(), vec![2]);
    // a subject the context does not hold is read as it is
    let stranger = context
        .slab
        .new_memo_basic_noparent(SubjectId::index_test(7), MemoBody::Edit(ValueSet(vec![])))
        .to_head();
    assert_eq!(context.contextualize_head(&stranger).ok().unwrap().memo_ids(), vec![3]);
    // an empty head is refused
    assert!(context.contextualize_head(&MemoRefHead::Null).is_err());
}

#[test]
fn resident_heads_only_advance() {
    let mut context = new_context();
    let first = context.add_test_subject(SubjectId::index_test(1), vec![]);
    let concurrent = context
        .slab
        .new_memo_basic_noparent(SubjectId::index_test(1), MemoBody::Edit(ValueSet(vec![])))
        .to_head();
    let applied = context.apply_head(&concurrent).ok().unwrap();
    // the earlier memo is kept beside the concurrent one
    assert_eq!(applied.memo_ids(), vec![0, 1]);
    assert_eq!(context.get_resident_subject_head_memo_ids(SubjectId::index_test(1)), vec![0, 1]);
    // an older head changes nothing
    let again = context.apply_head(&first).ok().unwrap();
    assert_eq!(again.memo_ids(), vec![0, 1]);
    // a head that descends both replaces them
    let both = context.slab.new_memo_basic(SubjectId::index_test(1), applied, MemoBody::Edit(ValueSet(vec![]))).to_head();
    context.apply_head(&both).ok().unwrap();
    assert_eq!(context.get_resident_subject_head_memo_ids(SubjectId::index_test(1)), vec![2]);
}

#[test]
fn compact_with_nothing_due_writes_nothing() {
    let mut context = new_context();
    let _head1 = context.add_test_subject(SubjectId::index_test(1), vec![]);
    let before = context.slab.memo_count();
    assert!(context.compact().is_ok());
    assert_eq!(context.slab.memo_count(), before);
    assert_eq!(context.stash.concise_contents(), ["I1"]);
}
