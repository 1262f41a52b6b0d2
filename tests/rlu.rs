use rlu::rlu::RLU_MAX_LOG_SIZE;
use rlu::rlu::{
    rlu_commit_write_log, rlu_process_free, rlu_swap_write_logs, rlu_unlock_write_log,
    rlu_writeback_write_log,
};
use rlu::rlu::{
    rlu_abort, rlu_dereference, rlu_finish_commit, rlu_free, rlu_reader_lock, rlu_reader_unlock,
    rlu_synchronize, rlu_thread_init, rlu_try_lock, rlu_write, Rlu, RluGlobal, RLU_MAX_THREADS,
    WRITE_CLOCK_INFINITY,
};

/// Ends a pending commit that no other section holds up any more.
fn finish(g: &mut RluGlobal<u64>, id: usize) {
    assert!(rlu_synchronize(g, id));
    rlu_finish_commit(g, id);
}

/// One writer section that adds one to `obj`, retried until its lock is taken;
/// the answer is whether its commit is still pending.
fn increment(g: &mut RluGlobal<u64>, id: usize, obj: Rlu) -> bool {
    loop {
        rlu_reader_lock(g, id);
        match rlu_try_lock(g, id, obj) {
            None => rlu_abort(g, id),
            Some(v) => {
                rlu_write(g, id, obj, v + 1);
                return rlu_reader_unlock(g, id);
            }
        }
    }
}

#[test]
fn rlu_basic_spawn_threads() {
    let mut g: RluGlobal<u64> = RluGlobal::init();
    let id = rlu_thread_init(&mut g);
    let id1 = rlu_thread_init(&mut g);
    let id2 = rlu_thread_init(&mut g);
    assert_eq!(id, 0);
    assert_eq!(id1, 1);
    assert_eq!(id2, 2);
}

#[test]
fn rlu_multiple_threads_read_only() {
    let mut g: RluGlobal<u64> = RluGlobal::init();
    let test_val = 2;
    let obj = g.alloc_object(test_val);
    let id1 = rlu_thread_init(&mut g);
    let id2 = rlu_thread_init(&mut g);
    rlu_reader_lock(&mut g, id1);
    rlu_reader_lock(&mut g, id2);
    assert_eq!(test_val, rlu_dereference(&g, id1, obj));
    assert_eq!(test_val, rlu_dereference(&g, id2, obj));
    assert!(!rlu_reader_unlock(&mut g, id1));
    assert!(!rlu_reader_unlock(&mut g, id2));
    assert_eq!(g.global_clock, 0);
}

#[test]
fn rlu_single_read_single_writer() {
    let mut g: RluGlobal<u64> = RluGlobal::init();
    let obj = g.alloc_object(2);
    let reader = rlu_thread_init(&mut g);
    let writer = rlu_thread_init(&mut g);

    rlu_reader_lock(&mut g, reader);
    let before = rlu_dereference(&g, reader, obj);
    assert_eq!(before, 2);

    rlu_reader_lock(&mut g, writer);
    assert_eq!(rlu_dereference(&g, writer, obj), 2);
    let v = rlu_try_lock(&mut g, writer, obj).unwrap();
    rlu_write(&mut g, writer, obj, v + 1);
    assert_eq!(rlu_dereference(&g, writer, obj), 3);
    assert!(rlu_reader_unlock(&mut g, writer));

    // The reader's section predates the commit: the writer waits for it.
    assert!(!rlu_synchronize(&g, writer));
    assert_eq!(rlu_dereference(&g, reader, obj), before);
    rlu_reader_unlock(&mut g, reader);
    finish(&mut g, writer);

    rlu_reader_lock(&mut g, reader);
    assert_eq!(rlu_dereference(&g, reader, obj), 3);
    rlu_reader_unlock(&mut g, reader);
}

#[test]
fn rlu_hold_locks() {
    let mut g: RluGlobal<u64> = RluGlobal::init();
    let obj = g.alloc_object(0);
    let num_readers = 16;
    let num_writers = 2;
    let readers: Vec<usize> = (0..num_readers).map(|_| rlu_thread_init(&mut g)).collect();
    let writers: Vec<usize> = (0..num_writers).map(|_| rlu_thread_init(&mut g)).collect();

    for round in 0..1000 {
        let reading = round < 100;
        let mut seen = Vec::new();
        if reading {
            for &r in &readers {
                rlu_reader_lock(&mut g, r);
                seen.push(rlu_dereference(&g, r, obj));
            }
        }
        for (j, &w) in writers.iter().enumerate() {
            let pending = increment(&mut g, w, obj);
            assert_eq!(pending, reading && j == 0);
            if pending {
                // The readers' sections hold this commit up; their value stays.
                assert!(!rlu_synchronize(&g, w));
                for (k, &r) in readers.iter().enumerate() {
                    assert_eq!(seen[k], rlu_dereference(&g, r, obj));
                    rlu_reader_unlock(&mut g, r);
                }
                finish(&mut g, w);
            }
        }
    }

    let id = rlu_thread_init(&mut g);
    rlu_reader_lock(&mut g, id);
    assert_eq!(rlu_dereference(&g, id, obj), 1000 * num_writers);
    rlu_reader_unlock(&mut g, id);
}

#[test]
fn registration_fills_every_slot() {
    let mut g: RluGlobal<u64> = RluGlobal::init();
    for k in 0..RLU_MAX_THREADS {
        assert_eq!(rlu_thread_init(&mut g), k);
    }
    assert_eq!(g.threads.len(), RLU_MAX_THREADS);
}

#[test]
fn contention_then_retry() {
    let mut g: RluGlobal<u64> = RluGlobal::init();
    let obj = g.alloc_object(10);
    let a = rlu_thread_init(&mut g);
    let b = rlu_thread_init(&mut g);
    rlu_reader_lock(&mut g, a);
    rlu_reader_lock(&mut g, b);
    assert_eq!(rlu_try_lock(&mut g, a, obj), Some(10));
    assert_eq!(rlu_try_lock(&mut g, b, obj), None);
    rlu_abort(&mut g, b);
    assert_eq!(g.global_clock, 0);
    rlu_write(&mut g, a, obj, 11);
    assert!(!rlu_reader_unlock(&mut g, a));
    rlu_reader_lock(&mut g, b);
    assert_eq!(rlu_try_lock(&mut g, b, obj), Some(11));
    rlu_write(&mut g, b, obj, 12);
    assert!(!rlu_reader_unlock(&mut g, b));
    assert_eq!(g.objects[obj.index].data, 12);
    assert_eq!(g.global_clock, 2);
}

#[test]
fn relock_by_owner_returns_its_copy() {
    let mut g: RluGlobal<u64> = RluGlobal::init();
    let obj = g.alloc_object(5);
    let a = rlu_thread_init(&mut g);
    rlu_reader_lock(&mut g, a);
    assert_eq!(rlu_try_lock(&mut g, a, obj), Some(5));
    rlu_write(&mut g, a, obj, 6);
    assert_eq!(rlu_try_lock(&mut g, a, obj), Some(6));
    assert_eq!(rlu_dereference(&g, a, obj), 6);
    assert_eq!(g.threads[a].write_log[g.threads[a].current_log].log.len(), 1);
}

#[test]
fn abort_releases_locks_and_keeps_clock() {
    let mut g: RluGlobal<u64> = RluGlobal::init();
    let x = g.alloc_object(1);
    let y = g.alloc_object(2);
    let a = rlu_thread_init(&mut g);
    let b = rlu_thread_init(&mut g);
    rlu_reader_lock(&mut g, a);
    rlu_try_lock(&mut g, a, x).unwrap();
    rlu_try_lock(&mut g, a, y).unwrap();
    rlu_write(&mut g, a, x, 100);
    rlu_write(&mut g, a, y, 200);
    rlu_abort(&mut g, a);
    assert_eq!(g.threads[a].run_cnt % 2, 0);
    assert!(!g.threads[a].is_writer);
    assert!(g.objects[x.index].copy.is_none());
    assert!(g.objects[y.index].copy.is_none());
    assert_eq!(g.global_clock, 0);
    rlu_reader_lock(&mut g, b);
    assert_eq!(rlu_dereference(&g, b, x), 1);
    assert_eq!(rlu_dereference(&g, b, y), 2);
    assert_eq!(rlu_try_lock(&mut g, b, x), Some(1));
}

#[test]
fn snapshot_decides_visibility() {
    let mut g: RluGlobal<u64> = RluGlobal::init();
    let obj = g.alloc_object(7);
    let w = rlu_thread_init(&mut g);
    let old_reader = rlu_thread_init(&mut g);
    let new_reader = rlu_thread_init(&mut g);

    rlu_reader_lock(&mut g, old_reader);
    rlu_reader_lock(&mut g, w);
    rlu_try_lock(&mut g, w, obj).unwrap();
    rlu_write(&mut g, w, obj, 8);
    // Not committed yet: nobody else sees the copy.
    assert_eq!(rlu_dereference(&g, old_reader, obj), 7);
    assert!(rlu_reader_unlock(&mut g, w));
    let k = g.threads[w].write_clock;
    assert_eq!(k, 1);
    assert_eq!(g.global_clock, 1);

    rlu_reader_lock(&mut g, new_reader);
    assert!(g.threads[new_reader].local_clock >= k);
    assert!(g.threads[old_reader].local_clock < k);
    assert_eq!(rlu_dereference(&g, new_reader, obj), 8);
    assert_eq!(rlu_dereference(&g, old_reader, obj), 7);
    assert!(!rlu_synchronize(&g, w));
    assert_eq!(rlu_dereference(&g, old_reader, obj), 7);
    rlu_reader_unlock(&mut g, old_reader);
    assert!(rlu_synchronize(&g, w));
    rlu_finish_commit(&mut g, w);
    assert_eq!(g.threads[w].write_clock, WRITE_CLOCK_INFINITY);
    assert_eq!(rlu_dereference(&g, new_reader, obj), 8);
    rlu_reader_unlock(&mut g, new_reader);
}

#[test]
fn run_counter_parity_and_clock_steps() {
    let mut g: RluGlobal<u64> = RluGlobal::init();
    let obj = g.alloc_object(0);
    let a = rlu_thread_init(&mut g);
    assert_eq!(g.threads[a].run_cnt, 0);
    rlu_reader_lock(&mut g, a);
    assert_eq!(g.threads[a].run_cnt, 1);
    rlu_reader_unlock(&mut g, a);
    assert_eq!(g.threads[a].run_cnt, 2);
    assert_eq!(g.global_clock, 0);
    for n in 1..=5u64 {
        assert!(!increment(&mut g, a, obj));
        assert_eq!(g.global_clock, n as usize);
        assert_eq!(g.threads[a].run_cnt % 2, 0);
    }
    assert_eq!(g.objects[obj.index].data, 5);
}

#[test]
fn commit_swaps_logs_and_reclaims() {
    let mut g: RluGlobal<u64> = RluGlobal::init();
    let keep = g.alloc_object(1);
    let gone = g.alloc_object(2);
    let a = rlu_thread_init(&mut g);
    assert_eq!(g.threads[a].current_log, 0);
    rlu_reader_lock(&mut g, a);
    rlu_try_lock(&mut g, a, keep).unwrap();
    rlu_try_lock(&mut g, a, gone).unwrap();
    rlu_write(&mut g, a, keep, 3);
    rlu_free(&mut g, a, gone);
    assert_eq!(g.threads[a].free_nodes.len(), 1);
    assert!(!g.objects[gone.index].freed);
    assert!(!rlu_reader_unlock(&mut g, a));
    assert!(g.objects[gone.index].freed);
    assert!(!g.objects[keep.index].freed);
    assert_eq!(g.objects[keep.index].data, 3);
    assert_eq!(g.threads[a].current_log, 1);
    assert_eq!(g.threads[a].free_nodes.len(), 0);
    assert!(g.threads[a].write_log[0].log.is_empty());
    assert!(g.threads[a].write_log[1].log.is_empty());
}

#[test]
fn handle_deref_reads_the_object() {
    let mut g: RluGlobal<u64> = RluGlobal::init();
    let first = g.alloc_object(40);
    let second = g.alloc_object(41);
    assert_eq!(first.index, 0);
    assert_eq!(second.index, 1);
    assert_eq!(second.deref(&g).data, 41);
    assert!(second.deref(&g).copy.is_none());
}

#[test]
fn commit_steps_one_by_one() {
    let mut g: RluGlobal<u64> = RluGlobal::init();
    let obj = g.alloc_object(1);
    let spare = g.alloc_object(9);
    let a = rlu_thread_init(&mut g);
    let reader = rlu_thread_init(&mut g);
    rlu_reader_lock(&mut g, reader);
    rlu_reader_lock(&mut g, a);
    rlu_try_lock(&mut g, a, obj).unwrap();
    rlu_try_lock(&mut g, a, spare).unwrap();
    rlu_write(&mut g, a, obj, 2);
    rlu_free(&mut g, a, spare);
    assert!(rlu_commit_write_log(&mut g, a));
    assert!(g.threads[a].committing);
    assert_eq!(g.threads[a].write_clock, 1);
    assert_eq!(g.threads[a].sync_cnts, vec![2, 1]);
    assert!(!rlu_synchronize(&g, a));
    rlu_reader_unlock(&mut g, reader);
    assert!(rlu_synchronize(&g, a));

    rlu_writeback_write_log(&mut g, a);
    assert_eq!(g.objects[obj.index].data, 2);
    assert!(g.objects[obj.index].copy.is_some());
    rlu_unlock_write_log(&mut g, a);
    assert!(g.objects[obj.index].copy.is_none());
    assert!(g.objects[spare.index].copy.is_none());
    rlu_process_free(&mut g, a);
    assert!(g.objects[spare.index].freed);
    assert!(g.threads[a].free_nodes.is_empty());
    rlu_swap_write_logs(&mut g, a);
    assert_eq!(g.threads[a].current_log, 1);
    rlu_finish_commit(&mut g, a);
    assert_eq!(g.threads[a].current_log, 0);
    assert!(!g.threads[a].committing);
    assert_eq!(g.threads[a].write_clock, WRITE_CLOCK_INFINITY);
    assert_eq!(g.objects[obj.index].data, 2);
}

#[test]
fn full_log_still_relocks_and_meets_contention() {
    let mut g: RluGlobal<u64> = RluGlobal::init();
    let objs: Vec<Rlu> = (0..RLU_MAX_LOG_SIZE as u64).map(|k| g.alloc_object(k)).collect();
    let taken = g.alloc_object(500);
    let a = rlu_thread_init(&mut g);
    let b = rlu_thread_init(&mut g);
    rlu_reader_lock(&mut g, b);
    assert_eq!(rlu_try_lock(&mut g, b, taken), Some(500));
    rlu_reader_lock(&mut g, a);
    for &o in &objs {
        assert!(rlu_try_lock(&mut g, a, o).is_some());
    }
    let cur = g.threads[a].current_log;
    assert_eq!(g.threads[a].write_log[cur].log.len(), RLU_MAX_LOG_SIZE);
    assert_eq!(rlu_try_lock(&mut g, a, objs[3]), Some(3));
    assert_eq!(rlu_try_lock(&mut g, a, taken), None);
    assert_eq!(g.threads[a].write_log[cur].log.len(), RLU_MAX_LOG_SIZE);
    assert_eq!(g.objects[taken.index].copy.unwrap().thread_id, b);
}

#[test]
fn first_lock_takes_the_next_slot() {
    let mut g: RluGlobal<u64> = RluGlobal::init();
    let x = g.alloc_object(1);
    let y = g.alloc_object(2);
    let a = rlu_thread_init(&mut g);
    rlu_reader_lock(&mut g, a);
    rlu_try_lock(&mut g, a, x).unwrap();
    rlu_try_lock(&mut g, a, y).unwrap();
    let cur = g.threads[a].current_log;
    let slot = g.objects[y.index].copy.unwrap();
    assert_eq!((slot.thread_id, slot.log, slot.slot), (a, cur, 1));
    let copy = &g.threads[a].write_log[cur].log[1];
    assert_eq!((copy.thread_id, copy.original, copy.data), (a, y, 2));
    assert!(g.threads[a].write_log[1 - cur].log.is_empty());
    assert!(g.threads[a].is_writer);
}

#[test]
fn commit_start_keeps_the_logs() {
    let mut g: RluGlobal<u64> = RluGlobal::init();
    let x = g.alloc_object(1);
    let a = rlu_thread_init(&mut g);
    let reader = rlu_thread_init(&mut g);
    rlu_reader_lock(&mut g, reader);
    rlu_reader_lock(&mut g, a);
    rlu_try_lock(&mut g, a, x).unwrap();
    assert!(rlu_reader_unlock(&mut g, a));
    assert_eq!(g.threads[a].current_log, 0);
    assert_eq!(g.threads[a].write_log[0].log.len(), 1);
    assert_eq!(g.threads[a].run_cnt, 2);
    assert_eq!(g.threads[a].write_clock, 1);
    rlu_reader_unlock(&mut g, reader);
    finish(&mut g, a);
    assert_eq!(g.threads[a].current_log, 1);
}

#[test]
fn writer_unlock_commits_at_once() {
    let mut g: RluGlobal<u64> = RluGlobal::init();
    let obj = g.alloc_object(2);
    let id = rlu_thread_init(&mut g);
    rlu_reader_lock(&mut g, id);
    let v = rlu_try_lock(&mut g, id, obj).unwrap();
    rlu_write(&mut g, id, obj, v + 1);
    assert!(!rlu_reader_unlock(&mut g, id));
    assert_eq!(g.objects[obj.index].data, 3);
    assert!(g.objects[obj.index].copy.is_none());
    assert_eq!(g.global_clock, 1);
    assert_eq!(g.threads[id].write_clock, WRITE_CLOCK_INFINITY);
    assert!(!g.threads[id].committing);
    assert_eq!(g.threads[id].current_log, 1);
}
