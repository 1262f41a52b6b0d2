use rlu::rlu::{
    rlu_finish_commit, rlu_reader_lock, rlu_reader_unlock, rlu_synchronize, rlu_try_lock, RluGlobal,
};
use rlu::rlu_set::{InsertStep, RluNode, RluSet};

/// Adds `value` and runs the commit to its end.
fn add(g: &mut RluGlobal<RluNode<usize>>, set: &RluSet, value: usize) -> bool {
    match set.insert(g, value) {
        InsertStep::Linked { pending, .. } => {
            if pending {
                assert!(rlu_synchronize(g, set.thread_id));
                rlu_finish_commit(g, set.thread_id);
            }
            true
        }
        InsertStep::Present => false,
        other => panic!("unexpected {:?}", other),
    }
}

#[test]
fn new_set_is_empty() {
    let mut g: RluGlobal<RluNode<usize>> = RluGlobal::init();
    let set = RluSet::new(&mut g);
    assert_eq!(set.thread_id, 0);
    assert_eq!(set.len(&mut g), 0);
    assert!(!set.contains(&mut g, 0));
    assert_eq!(set.to_string(&mut g), "{}");
}

#[test]
fn inserts_keep_order() {
    let mut g: RluGlobal<RluNode<usize>> = RluGlobal::init();
    let set = RluSet::new(&mut g);
    assert!(add(&mut g, &set, 30));
    assert!(add(&mut g, &set, 10));
    assert!(add(&mut g, &set, 20));
    assert!(add(&mut g, &set, 105));
    assert!(!add(&mut g, &set, 20));
    assert_eq!(set.len(&mut g), 4);
    assert!(set.contains(&mut g, 20));
    assert!(!set.contains(&mut g, 25));
    assert_eq!(set.to_string(&mut g), "{10, 20, 30, 105, }");
    assert_eq!(g.global_clock, 4);
}

#[test]
fn insert_reports_the_splice() {
    let mut g: RluGlobal<RluNode<usize>> = RluGlobal::init();
    let set = RluSet::new(&mut g);
    assert!(add(&mut g, &set, 5));
    match set.insert(&mut g, 9) {
        InsertStep::Linked { prev, node, pending } => {
            assert!(!pending);
            assert_eq!(g.objects[node.index].data.elem, 9);
            assert!(g.objects[node.index].data.next.is_none());
            assert_eq!(g.objects[prev.index].data.elem, 5);
            assert_eq!(g.objects[prev.index].data.next, Some(node));
            assert!(g.objects[prev.index].copy.is_none());
            assert!(!g.threads[set.thread_id].committing);
        }
        other => panic!("unexpected {:?}", other),
    }
}

#[test]
fn insert_meets_contention() {
    let mut g: RluGlobal<RluNode<usize>> = RluGlobal::init();
    let set = RluSet::new(&mut g);
    let other = set.clone_ref(&mut g);
    assert_eq!(other.head, set.head);
    rlu_reader_lock(&mut g, other.thread_id);
    assert!(rlu_try_lock(&mut g, other.thread_id, other.head).is_some());
    assert_eq!(set.insert(&mut g, 1), InsertStep::Contended);
    assert_eq!(g.global_clock, 0);
    assert!(!g.threads[set.thread_id].committing);
}

#[test]
fn readers_see_inserts_after_commit() {
    let mut g: RluGlobal<RluNode<usize>> = RluGlobal::init();
    let writer = RluSet::new(&mut g);
    let reader = writer.clone_ref(&mut g);
    assert!(add(&mut g, &writer, 7));
    assert!(reader.contains(&mut g, 7));
    assert_eq!(reader.to_string(&mut g), "{7, }");
}

#[test]
fn new_and_clone_register_threads() {
    let mut g: RluGlobal<RluNode<usize>> = RluGlobal::init();
    let set = RluSet::new(&mut g);
    assert_eq!(g.threads.len(), 1);
    assert!(g.objects[set.head.index].copy.is_none());
    assert!(g.objects[set.head.index].data.next.is_none());
    let other = set.clone_ref(&mut g);
    assert_eq!(other.thread_id, 1);
    assert_eq!(g.threads.len(), 2);
}

#[test]
fn contended_insert_leaves_no_lock() {
    let mut g: RluGlobal<RluNode<usize>> = RluGlobal::init();
    let set = RluSet::new(&mut g);
    let other = set.clone_ref(&mut g);
    rlu_reader_lock(&mut g, other.thread_id);
    rlu_try_lock(&mut g, other.thread_id, other.head).unwrap();
    assert_eq!(set.insert(&mut g, 4), InsertStep::Contended);
    assert_eq!(g.objects[set.head.index].copy.unwrap().thread_id, other.thread_id);
    assert_eq!(g.threads[set.thread_id].run_cnt % 2, 0);
    assert!(!g.threads[set.thread_id].is_writer);
    assert_eq!(g.objects.len(), 1);
}

#[test]
fn insert_waits_for_an_open_reader() {
    let mut g: RluGlobal<RluNode<usize>> = RluGlobal::init();
    let set = RluSet::new(&mut g);
    let reader = set.clone_ref(&mut g);
    rlu_reader_lock(&mut g, reader.thread_id);
    match set.insert(&mut g, 3) {
        InsertStep::Linked { prev, pending, .. } => {
            assert!(pending);
            assert!(g.threads[set.thread_id].committing);
            assert_eq!(g.objects[prev.index].copy.unwrap().thread_id, set.thread_id);
        }
        other => panic!("unexpected {:?}", other),
    }
    rlu_reader_unlock(&mut g, reader.thread_id);
    assert!(rlu_synchronize(&g, set.thread_id));
    rlu_finish_commit(&mut g, set.thread_id);
    assert!(reader.contains(&mut g, 3));
}
