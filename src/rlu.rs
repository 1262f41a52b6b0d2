//! The runtime. All of its state lives in one `RluGlobal` value: the global
//! clock, the registered threads and an arena of objects named by index.
//! Every operation takes the thread it acts for, and is one atomic step of
//! the protocol. The one wait of the protocol, a commit's wait for older
//! readers, is left to the caller: `rlu_reader_unlock` starts the commit,
//! `rlu_synchronize` says whether it may go on, and `rlu_finish_commit`
//! ends it.
//!
//! `RluGlobal::view` is the value a thread reads for an object. The contracts
//! say, for each step, how it changes: a thread inside a section never sees
//! another thread's step change it.

use vstd::prelude::*;

verus! {

/// Number of speculative copies one write log can hold.
pub const RLU_MAX_LOG_SIZE: usize = 128;

/// Number of threads that can register with one runtime.
pub const RLU_MAX_THREADS: usize = 32;

/// Number of objects one thread can queue for reclamation per commit.
pub const RLU_MAX_FREE_NODES: usize = 100;

/// The write clock of a thread that is not committing: above every clock value.
pub const WRITE_CLOCK_INFINITY: usize = usize::MAX;

/// Handle of an object managed by the runtime: its index in the object arena.
#[derive(Clone, Copy, PartialEq, Eq, Structural, Debug)]
pub struct Rlu {
    pub index: usize,
}

/// Where a speculative copy lives: a slot of one of a thread's two write logs.
#[derive(Clone, Copy, PartialEq, Eq, Structural, Debug)]
pub struct CopyRef {
    pub thread_id: usize,
    pub log: usize,
    pub slot: usize,
}

/// An object: its committed payload, and the lock slot that locates its copy.
/// The object is locked exactly when `copy` is `Some`.
pub struct ObjOriginal<T> {
    pub copy: Option<CopyRef>,
    pub data: T,
    pub freed: bool,
}

/// A speculative copy of an object, owned by the thread that locked it.
pub struct ObjCopy<T> {
    pub thread_id: usize,
    pub original: Rlu,
    pub data: T,
}

/// A thread's buffer of speculative copies, in the order they were taken.
pub struct WriteLog<T> {
    pub log: Vec<ObjCopy<T>>,
}

/// Per-thread state: clocks, run counter, the two write logs and the free list.
pub struct RluThreadData<T> {
    pub thread_id: usize,
    pub is_writer: bool,
    pub write_clock: usize,
    pub local_clock: usize,
    pub run_cnt: usize,
    pub write_log: Vec<WriteLog<T>>,
    pub current_log: usize,
    pub free_nodes: Vec<Rlu>,
    /// Set between the commit's timestamp and the end of its writeback.
    pub committing: bool,
    /// The run counters of all threads, as the commit in progress saw them.
    pub sync_cnts: Vec<usize>,
}

/// The runtime: the global clock, the registered threads and the object arena.
pub struct RluGlobal<T> {
    pub global_clock: usize,
    pub threads: Vec<RluThreadData<T>>,
    pub objects: Vec<ObjOriginal<T>>,
}

impl<T> RluThreadData<T> {
    pub open spec fn is_fresh(self, thid: int) -> bool {
        &&& self.thread_id == thid
        &&& !self.is_writer
        &&& self.write_clock == WRITE_CLOCK_INFINITY
        &&& self.local_clock == 0
        &&& self.run_cnt == 0
        &&& self.write_log@.len() == 2
        &&& self.write_log@[0].log@.len() == 0
        &&& self.write_log@[1].log@.len() == 0
        &&& self.current_log == 0
        &&& self.free_nodes@.len() == 0
        &&& !self.committing
        &&& self.sync_cnts@.len() == 0
    }

    fn new(thid: usize) -> (r: Self)
        ensures
            r.is_fresh(thid as int),
    {
        let mut write_log: Vec<WriteLog<T>> = Vec::new();
        write_log.push(WriteLog::new());
        write_log.push(WriteLog::new());
        RluThreadData {
            thread_id: thid,
            is_writer: false,
            write_clock: WRITE_CLOCK_INFINITY,
            local_clock: 0,
            run_cnt: 0,
            write_log,
            current_log: 0,
            free_nodes: Vec::new(),
            committing: false,
            sync_cnts: Vec::new(),
        }
    }
}

impl<T> WriteLog<T> {
    fn new() -> (r: Self)
        ensures
            r.log@.len() == 0,
    {
        WriteLog { log: Vec::new() }
    }
}

impl<T> RluGlobal<T> {
    pub open spec fn valid_thread(self, t: int) -> bool {
        0 <= t < self.threads@.len()
    }

    pub open spec fn valid_obj(self, o: int) -> bool {
        0 <= o < self.objects@.len()
    }

    /// Thread `t` is inside a reader section: its run counter is odd.
    pub open spec fn in_section(self, t: int) -> bool {
        self.threads@[t].run_cnt % 2 == 1
    }

    /// The log that thread `t` is writing copies into.
    pub open spec fn active_log(self, t: int) -> Seq<ObjCopy<T>> {
        self.threads@[t].write_log@[self.threads@[t].current_log as int].log@
    }

    pub open spec fn locked_by(self, o: int, t: int) -> bool {
        &&& self.objects@[o].copy is Some
        &&& self.objects@[o].copy->0.thread_id == t
    }

    /// The speculative copy that locks object `o`.
    pub open spec fn copy_of(self, o: int) -> ObjCopy<T> {
        let r = self.objects@[o].copy->0;
        self.active_log(r.thread_id as int)[r.slot as int]
    }

    /// The value of object `o` as thread `t` sees it: its own copy, a copy whose
    /// writer committed within `t`'s snapshot, or else the committed payload.
    pub open spec fn view(self, t: int, o: int) -> T {
        self.view_at(t, self.threads@[t].local_clock as int, o)
    }

    /// Object `o` is on thread `t`'s free list.
    pub open spec fn queued_for_free(self, t: int, o: int) -> bool {
        exists|k: int|
            0 <= k < self.threads@[t].free_nodes@.len() && (#[trigger] self.threads@[t].free_nodes@[k]).index == o
    }

    /// The value of object `o` that thread `t` would see with snapshot `clock`.
    pub open spec fn view_at(self, t: int, clock: int, o: int) -> T {
        match self.objects@[o].copy {
            None => self.objects@[o].data,
            Some(r) => {
                if r.thread_id == t || self.threads@[r.thread_id as int].write_clock <= clock {
                    self.copy_of(o).data
                } else {
                    self.objects@[o].data
                }
            },
        }
    }

    /// The committing thread `t` need not wait for thread `i` any more.
    pub open spec fn quiescent_for(self, t: int, i: int) -> bool {
        let cnt = self.threads@[t].sync_cnts@[i];
        ||| cnt % 2 == 0
        ||| self.threads@[i].run_cnt != cnt
        ||| self.threads@[t].write_clock <= self.threads@[i].local_clock
    }

    /// No reader section that began before thread `t`'s commit is still open
    /// with a snapshot older than that commit.
    pub open spec fn sync_done(self, t: int) -> bool {
        forall|i: int|
            0 <= i < self.threads@[t].sync_cnts@.len() && i != t ==> #[trigger] self.quiescent_for(
                t,
                i,
            )
    }

    pub open spec fn thread_wf(self, t: int) -> bool {
        let th = self.threads@[t];
        &&& th.thread_id == t
        &&& th.write_log@.len() == 2
        &&& th.current_log < 2
        &&& th.write_log@[1 - th.current_log].log@.len() == 0
        &&& self.active_log(t).len() <= RLU_MAX_LOG_SIZE
        &&& th.free_nodes@.len() <= RLU_MAX_FREE_NODES
        &&& forall|k: int|
            0 <= k < th.free_nodes@.len() ==> self.valid_obj(#[trigger] th.free_nodes@[k].index as int)
        &&& th.local_clock <= self.global_clock
        &&& th.is_writer ==> th.run_cnt % 2 == 1
        &&& th.run_cnt % 2 == 1 ==> th.run_cnt < usize::MAX
        &&& if th.committing {
            &&& th.run_cnt % 2 == 0
            &&& 1 <= th.write_clock <= self.global_clock
            &&& th.sync_cnts@.len() <= self.threads@.len()
        } else {
            &&& th.write_clock == WRITE_CLOCK_INFINITY
            &&& self.active_log(t).len() > 0 ==> th.is_writer
        }
    }

    /// Each copy in an active log is the one its object's lock slot points to.
    pub open spec fn copies_wf(self) -> bool {
        forall|t: int, s: int|
            #![trigger self.active_log(t)[s]]
            self.valid_thread(t) && 0 <= s < self.active_log(t).len() ==> {
                let c = self.active_log(t)[s];
                &&& c.thread_id == t
                &&& self.valid_obj(c.original.index as int)
                &&& self.objects@[c.original.index as int].copy == Some(
                    CopyRef { thread_id: t as usize, log: self.threads@[t].current_log, slot: s as usize },
                )
            }
    }

    /// Each locked object points at a copy of itself in its owner's active log.
    pub open spec fn objects_wf(self) -> bool {
        forall|o: int|
            #![trigger self.objects@[o]]
            self.valid_obj(o) && self.objects@[o].copy is Some ==> {
                let r = self.objects@[o].copy->0;
                &&& self.valid_thread(r.thread_id as int)
                &&& r.log == self.threads@[r.thread_id as int].current_log
                &&& r.slot < self.active_log(r.thread_id as int).len()
                &&& self.active_log(r.thread_id as int)[r.slot as int].original.index == o
            }
    }

    /// A reader section whose snapshot predates a commit in progress was open,
    /// with the same run counter, when that commit took its snapshot.
    pub open spec fn sync_wf(self) -> bool {
        forall|w: int, i: int|
            #![trigger self.threads@[w], self.threads@[i]]
            self.valid_thread(w) && self.valid_thread(i) && w != i && self.threads@[w].committing
                && self.threads@[i].run_cnt % 2 == 1 && self.threads@[i].local_clock
                < self.threads@[w].write_clock ==> i < self.threads@[w].sync_cnts@.len()
                && self.threads@[w].sync_cnts@[i] == self.threads@[i].run_cnt
    }

    pub open spec fn wf(self) -> bool {
        &&& self.global_clock < WRITE_CLOCK_INFINITY
        &&& self.threads@.len() <= RLU_MAX_THREADS
        &&& forall|t: int| self.valid_thread(t) ==> #[trigger] self.thread_wf(t)
        &&& self.copies_wf()
        &&& self.objects_wf()
        &&& self.sync_wf()
    }

    /// What a commit of writer `t`, started in this state, has done by `next`.
    /// The section is over and the global clock has advanced by one. It is
    /// `pending` exactly when another thread was inside a section: the writer
    /// then holds its copies and waits for `rlu_synchronize`. Otherwise it is
    /// complete: copies written back and unlocked, reclaimed what was freed,
    /// logs swapped and the write clock back at infinity.
    pub open spec fn commit_outcome(self, next: Self, t: int, pending: bool) -> bool {
        let th = self.threads@[t];
        let nt = next.threads@[t];
        &&& next.wf()
        &&& pending <==> exists|i: int|
            0 <= i < self.threads@.len() && i != t && #[trigger] self.in_section(i)
        &&& next.global_clock == self.global_clock + 1
        &&& next.threads@.len() == self.threads@.len()
        &&& forall|u: int|
            0 <= u < self.threads@.len() && u != t ==> #[trigger] next.threads@[u] == self.threads@[u]
        &&& nt.run_cnt == th.run_cnt + 1
        &&& !nt.is_writer
        &&& nt.local_clock == th.local_clock
        &&& self.views_kept(next, t)
        &&& if pending {
            &&& nt == (RluThreadData {
                is_writer: false,
                run_cnt: (th.run_cnt + 1) as usize,
                write_clock: (self.global_clock + 1) as usize,
                committing: true,
                sync_cnts: nt.sync_cnts,
                ..th
            })
            &&& nt.sync_cnts@.len() == next.threads@.len()
            &&& forall|i: int|
                0 <= i < next.threads@.len() ==> #[trigger] nt.sync_cnts@[i]
                    == next.threads@[i].run_cnt
            &&& next.objects@ == self.objects@
        } else {
            &&& !nt.committing
            &&& nt.write_clock == WRITE_CLOCK_INFINITY
            &&& nt.current_log == 1 - th.current_log
            &&& next.active_log(t).len() == 0
            &&& nt.free_nodes@.len() == 0
            &&& next.objects@.len() == self.objects@.len()
            &&& forall|o: int|
                #![trigger next.objects@[o]]
                self.valid_obj(o) ==> next.objects@[o] == (ObjOriginal {
                    copy: if self.locked_by(o, t) {
                        None
                    } else {
                        self.objects@[o].copy
                    },
                    data: if self.locked_by(o, t) {
                        self.copy_of(o).data
                    } else {
                        self.objects@[o].data
                    },
                    freed: self.objects@[o].freed || self.queued_for_free(t, o),
                })
            &&& forall|r: int, o: int|
                #![trigger next.view(r, o)]
                self.valid_thread(r) && self.valid_obj(o) && self.locked_by(o, t) ==> next.view(r, o)
                    == self.copy_of(o).data
        }
    }

    /// What a step of thread `t` owes every other thread inside a reader
    /// section: each object keeps the value that thread sees.
    pub open spec fn views_kept(self, next: Self, t: int) -> bool {
        forall|r: int, o: int|
            #![trigger next.view(r, o)]
            self.valid_thread(r) && r != t && self.in_section(r) && self.valid_obj(o) ==> next.view(
                r,
                o,
            ) == self.view(r, o)
    }

    /// Creates a runtime with no threads and no objects.
    pub fn init() -> (g: Self)
        ensures
            g.wf(),
            g.global_clock == 0,
            g.threads@.len() == 0,
            g.objects@.len() == 0,
    {
        RluGlobal { global_clock: 0, threads: Vec::new(), objects: Vec::new() }
    }

    /// Places `data` in a new, unlocked object and returns its handle.
    pub fn alloc_object(&mut self, data: T) -> (h: Rlu)
        requires
            old(self).wf(),
            old(self).objects@.len() < usize::MAX,
        ensures
            final(self).wf(),
            h.index == old(self).objects@.len(),
            final(self).objects@ == old(self).objects@.push(
                ObjOriginal { copy: None, data, freed: false },
            ),
            final(self).threads@ == old(self).threads@,
            final(self).global_clock == old(self).global_clock,
    {
        let h = Rlu { index: self.objects.len() };
        self.objects.push(ObjOriginal { copy: None, data, freed: false });
        proof {
            lemma_payload_only(*old(self), *self);
        }
        h
    }
}


impl Rlu {
    /// The object this handle names.
    pub fn deref<'a, T>(&self, g: &'a RluGlobal<T>) -> (r: &'a ObjOriginal<T>)
        requires
            g.valid_obj(self.index as int),
        ensures
            *r == g.objects@[self.index as int],
    {
        &g.objects[self.index]
    }
}

/// Registers a new thread and returns its id, the number of threads before it.
pub fn rlu_thread_init<T>(g: &mut RluGlobal<T>) -> (tid: usize)
    requires
        old(g).wf(),
        old(g).threads@.len() < RLU_MAX_THREADS,
    ensures
        final(g).wf(),
        tid == old(g).threads@.len(),
        final(g).threads@.len() == old(g).threads@.len() + 1,
        final(g).threads@.drop_last() == old(g).threads@,
        final(g).threads@[tid as int].is_fresh(tid as int),
        final(g).objects@ == old(g).objects@,
        final(g).global_clock == old(g).global_clock,
        old(g).views_kept(*final(g), tid as int),
{
    let tid = g.threads.len();
    g.threads.push(RluThreadData::new(tid));
    proof {
        assert(g.threads@.drop_last() =~= old(g).threads@);
        assert forall|t: int| g.valid_thread(t) implies #[trigger] g.thread_wf(t) by {
            if t < tid {
                assert(old(g).thread_wf(t));
                assert(g.threads@[t] == old(g).threads@[t]);
            }
        }
        assert forall|t: int, s: int|
            g.valid_thread(t) && 0 <= s < g.active_log(t).len() implies {
            let c = #[trigger] g.active_log(t)[s];
            &&& c.thread_id == t
            &&& g.valid_obj(c.original.index as int)
            &&& g.objects@[c.original.index as int].copy == Some(
                CopyRef { thread_id: t as usize, log: g.threads@[t].current_log, slot: s as usize },
            )
        } by {
            assert(g.threads@[t] == old(g).threads@[t]);
            assert(old(g).active_log(t)[s] == g.active_log(t)[s]);
        }
        assert forall|o: int| g.valid_obj(o) && g.objects@[o].copy is Some implies {
            let r = (#[trigger] g.objects@[o]).copy->0;
            &&& g.valid_thread(r.thread_id as int)
            &&& r.log == g.threads@[r.thread_id as int].current_log
            &&& r.slot < g.active_log(r.thread_id as int).len()
            &&& g.active_log(r.thread_id as int)[r.slot as int].original.index == o
        } by {
            assert(old(g).objects@[o] == g.objects@[o]);
            let r = g.objects@[o].copy->0;
            assert(g.threads@[r.thread_id as int] == old(g).threads@[r.thread_id as int]);
        }
        assert forall|w: int, i: int|
            g.valid_thread(w) && g.valid_thread(i) && w != i && (#[trigger] g.threads@[w]).committing
                && (#[trigger] g.threads@[i]).run_cnt % 2 == 1 && g.threads@[i].local_clock
                < g.threads@[w].write_clock implies i < g.threads@[w].sync_cnts@.len()
            && g.threads@[w].sync_cnts@[i] == g.threads@[i].run_cnt by {
            assert(g.threads@[w] == old(g).threads@[w]);
            assert(g.threads@[i] == old(g).threads@[i]);
        }
        assert forall|r: int, o: int|
            old(g).valid_thread(r) && r != tid && old(g).in_section(r) && old(g).valid_obj(o)
            implies #[trigger] g.view(r, o) == old(g).view(r, o) by {
            assert(g.threads@[r] == old(g).threads@[r]);
            if let Some(c) = g.objects@[o].copy {
                assert(old(g).objects_wf());
                assert(old(g).objects@[o] == g.objects@[o]);
                assert(g.threads@[c.thread_id as int] == old(g).threads@[c.thread_id as int]);
            }
        }
    }
    tid
}

/// Opens a reader section: the thread's run counter becomes odd and its
/// snapshot is the global clock.
pub fn rlu_reader_lock<T>(g: &mut RluGlobal<T>, tid: usize)
    requires
        old(g).wf(),
        old(g).valid_thread(tid as int),
        !old(g).in_section(tid as int),
        !old(g).threads@[tid as int].committing,
        old(g).threads@[tid as int].run_cnt < usize::MAX - 1,
    ensures
        final(g).wf(),
        final(g).in_section(tid as int),
        final(g).threads@[tid as int].run_cnt == old(g).threads@[tid as int].run_cnt + 1,
        final(g).threads@[tid as int].local_clock == old(g).global_clock,
        !final(g).threads@[tid as int].is_writer,
        final(g).active_log(tid as int).len() == 0,
        final(g).threads@[tid as int] == (RluThreadData {
            is_writer: false,
            run_cnt: (old(g).threads@[tid as int].run_cnt + 1) as usize,
            local_clock: old(g).global_clock,
            ..old(g).threads@[tid as int]
        }),
        final(g).threads@.len() == old(g).threads@.len(),
        forall|t: int|
            0 <= t < old(g).threads@.len() && t != tid ==> #[trigger] final(g).threads@[t]
                == old(g).threads@[t],
        final(g).objects@ == old(g).objects@,
        final(g).global_clock == old(g).global_clock,
        old(g).views_kept(*final(g), tid as int),
        forall|o: int|
            final(g).valid_obj(o) && (#[trigger] final(g).objects@[o]).copy is None
                ==> final(g).view(tid as int, o) == final(g).objects@[o].data,
{
    let ghost g0 = *g;
    let clock = g.global_clock;
    g.threads[tid].is_writer = false;
    g.threads[tid].run_cnt = g.threads[tid].run_cnt + 1;
    g.threads[tid].local_clock = clock;
    proof {
        assert(g0.thread_wf(tid as int));
        assert forall|t: int| 0 <= t < g0.threads@.len() && t != tid implies #[trigger] g.threads@[t]
            == g0.threads@[t] by {}
        lemma_same_shape(g0, *g, tid as int);
        assert forall|w: int, i: int|
            g.valid_thread(w) && g.valid_thread(i) && w != i && (#[trigger] g.threads@[w]).committing
                && (#[trigger] g.threads@[i]).run_cnt % 2 == 1 && g.threads@[i].local_clock
                < g.threads@[w].write_clock implies i < g.threads@[w].sync_cnts@.len()
            && g.threads@[w].sync_cnts@[i] == g.threads@[i].run_cnt by {
            assert(g0.sync_wf());
            if i == tid {
                assert(g0.thread_wf(w));
            }
        }
        assert forall|r: int, o: int|
            g0.valid_thread(r) && r != tid && g0.in_section(r) && g0.valid_obj(o)
            implies #[trigger] g.view(r, o) == g0.view(r, o) by {
            if let Some(c) = g.objects@[o].copy {
                assert(g0.objects_wf());
                assert(g0.objects@[o] == g.objects@[o]);
            }
        }
    }
}

/// Reads object `obj` as thread `tid` sees it.
pub fn rlu_dereference<T: Copy>(g: &RluGlobal<T>, tid: usize, obj: Rlu) -> (r: T)
    requires
        g.wf(),
        g.valid_thread(tid as int),
        g.valid_obj(obj.index as int),
        !g.objects@[obj.index as int].freed,
    ensures
        r == g.view(tid as int, obj.index as int),
{
    let o = &g.objects[obj.index];
    match o.copy {
        None => o.data,
        Some(c) => {
            proof {
                assert(g.objects_wf());
                assert(g.thread_wf(c.thread_id as int));
            }
            let copy = &g.threads[c.thread_id].write_log[c.log].log[c.slot];
            if c.thread_id == tid {
                copy.data
            } else if g.threads[c.thread_id].write_clock <= g.threads[tid].local_clock {
                copy.data
            } else {
                o.data
            }
        },
    }
}

/// Tries to lock object `obj` for thread `tid`, which becomes a writer.
/// An unlocked object gets a fresh copy of its payload in the thread's active
/// log; an object the thread already holds is handed back; an object held by
/// another thread is contention, and the answer is `None`. On success the
/// result is the value the thread now reads and writes.
pub fn rlu_try_lock<T: Copy>(g: &mut RluGlobal<T>, tid: usize, obj: Rlu) -> (r: Option<T>)
    requires
        old(g).wf(),
        old(g).valid_thread(tid as int),
        old(g).in_section(tid as int),
        old(g).valid_obj(obj.index as int),
        old(g).objects@[obj.index as int].copy is None ==> old(g).active_log(tid as int).len()
            < RLU_MAX_LOG_SIZE,
    ensures
        final(g).wf(),
        r is Some <==> (old(g).objects@[obj.index as int].copy is None || old(g).locked_by(
            obj.index as int,
            tid as int,
        )),
        r is Some ==> final(g).locked_by(obj.index as int, tid as int) && r->0 == old(g).view(
            tid as int,
            obj.index as int,
        ),
        old(g).objects@[obj.index as int].copy is None ==> {
            &&& final(g).active_log(tid as int) == old(g).active_log(tid as int).push(
                ObjCopy {
                    thread_id: tid,
                    original: obj,
                    data: old(g).objects@[obj.index as int].data,
                },
            )
            &&& final(g).objects@[obj.index as int].copy == Some(
                CopyRef {
                    thread_id: tid,
                    log: old(g).threads@[tid as int].current_log,
                    slot: old(g).active_log(tid as int).len() as usize,
                },
            )
        },
        old(g).objects@[obj.index as int].copy is Some ==> final(g).objects@ == old(g).objects@
            && final(g).active_log(tid as int) == old(g).active_log(tid as int),
        final(g).threads@[tid as int] == (RluThreadData {
            is_writer: true,
            write_log: final(g).threads@[tid as int].write_log,
            ..old(g).threads@[tid as int]
        }),
        final(g).threads@[tid as int].write_log@.len() == 2,
        final(g).threads@[tid as int].write_log@[1 - old(g).threads@[tid as int].current_log].log@
            == old(g).threads@[tid as int].write_log@[1
            - old(g).threads@[tid as int].current_log].log@,
        final(g).threads@[tid as int].is_writer,
        final(g).threads@[tid as int].run_cnt == old(g).threads@[tid as int].run_cnt,
        final(g).threads@[tid as int].local_clock == old(g).threads@[tid as int].local_clock,
        final(g).threads@.len() == old(g).threads@.len(),
        forall|t: int|
            0 <= t < old(g).threads@.len() && t != tid ==> #[trigger] final(g).threads@[t]
                == old(g).threads@[t],
        final(g).objects@.len() == old(g).objects@.len(),
        forall|o: int|
            #![trigger final(g).objects@[o]]
            old(g).valid_obj(o) && o != obj.index ==> final(g).objects@[o] == old(g).objects@[o],
        final(g).objects@[obj.index as int].data == old(g).objects@[obj.index as int].data,
        final(g).objects@[obj.index as int].freed == old(g).objects@[obj.index as int].freed,
        final(g).global_clock == old(g).global_clock,
        forall|o: int|
            #![trigger final(g).view(tid as int, o)]
            old(g).valid_obj(o) ==> final(g).view(tid as int, o) == old(g).view(tid as int, o),
        old(g).views_kept(*final(g), tid as int),
{
    let ghost g0 = *g;
    proof {
        assert(g0.thread_wf(tid as int));
    }
    g.threads[tid].is_writer = true;
    let ghost g1 = *g;
    proof {
        assert forall|t: int| 0 <= t < g0.threads@.len() && t != tid implies #[trigger] g1.threads@[t]
            == g0.threads@[t] by {}
        lemma_same_shape(g0, g1, tid as int);
        assert(g1.sync_wf()) by {
            assert forall|w: int, i: int|
                g1.valid_thread(w) && g1.valid_thread(i) && w != i
                    && (#[trigger] g1.threads@[w]).committing && (#[trigger] g1.threads@[i]).run_cnt
                    % 2 == 1 && g1.threads@[i].local_clock < g1.threads@[w].write_clock implies i
                < g1.threads@[w].sync_cnts@.len() && g1.threads@[w].sync_cnts@[i]
                == g1.threads@[i].run_cnt by {
                assert(g0.sync_wf());
            }
        }
        assert forall|r: int, o: int| g0.valid_thread(r) && g0.valid_obj(o) implies #[trigger] g1.view(r, o)
            == g0.view(r, o) by {
            if let Some(c) = g0.objects@[o].copy {
                assert(g0.objects_wf());
                assert(g1.active_log(c.thread_id as int) == g0.active_log(c.thread_id as int));
            }
        }
    }
    match g.objects[obj.index].copy {
        Some(c) => {
            if c.thread_id == tid {
                proof {
                    assert(g1.objects_wf());
                }
                Some(g.threads[tid].write_log[c.log].log[c.slot].data)
            } else {
                None
            }
        },
        None => {
            let cur = g.threads[tid].current_log;
            let slot = g.threads[tid].write_log[cur].log.len();
            let data = g.objects[obj.index].data;
            g.threads[tid].write_log[cur].log.push(ObjCopy { thread_id: tid, original: obj, data });
            g.objects[obj.index].copy = Some(CopyRef { thread_id: tid, log: cur, slot });
            proof {
                let oi = obj.index as int;
                let ti = tid as int;
                assert(g1.thread_wf(ti));
                assert(g.active_log(ti) == g1.active_log(ti).push(
                    ObjCopy { thread_id: tid, original: obj, data },
                ));
                assert forall|t: int| 0 <= t < g0.threads@.len() && t != tid implies #[trigger] g.threads@[t]
                    == g0.threads@[t] by {
                    assert(g1.threads@[t] == g0.threads@[t]);
                }
                assert forall|u: int| g.valid_thread(u) && u != tid implies #[trigger] g.active_log(u)
                    == g1.active_log(u) by {
                    assert(g.threads@[u] == g1.threads@[u]);
                }
                // No copy in any log belongs to the object that was unlocked.
                assert forall|u: int, s: int|
                    g1.valid_thread(u) && 0 <= s < g1.active_log(u).len() implies (#[trigger] g1.active_log(u)[s]).original.index != oi by {
                    assert(g1.copies_wf());
                }
                assert forall|o: int| #![trigger g.objects@[o]] g1.valid_obj(o) && o != oi implies g.objects@[o] == g1.objects@[o] by {}
                assert(g.thread_wf(ti)) by {
                    assert(g1.thread_wf(ti));
                }
                lemma_other_threads_wf(g1, *g, ti);
                assert forall|u: int, s: int|
                    g.valid_thread(u) && 0 <= s < g.active_log(u).len() implies {
                    let c = #[trigger] g.active_log(u)[s];
                    &&& c.thread_id == u
                    &&& g.valid_obj(c.original.index as int)
                    &&& g.objects@[c.original.index as int].copy == Some(
                        CopyRef { thread_id: u as usize, log: g.threads@[u].current_log, slot: s as usize },
                    )
                } by {
                    if u != tid {
                        assert(g.threads@[u] == g1.threads@[u]);
                        assert(g1.active_log(u)[s] == g.active_log(u)[s]);
                        assert(g1.active_log(u)[s].original.index != oi);
                    } else if s < g1.active_log(u).len() {
                        assert(g1.active_log(u)[s] == g.active_log(u)[s]);
                        assert(g1.active_log(u)[s].original.index != oi);
                    }
                }
                assert forall|o: int| g.valid_obj(o) && g.objects@[o].copy is Some implies {
                    let r = (#[trigger] g.objects@[o]).copy->0;
                    &&& g.valid_thread(r.thread_id as int)
                    &&& r.log == g.threads@[r.thread_id as int].current_log
                    &&& r.slot < g.active_log(r.thread_id as int).len()
                    &&& g.active_log(r.thread_id as int)[r.slot as int].original.index == o
                } by {
                    if o != oi {
                        assert(g1.objects_wf());
                        assert(g1.objects@[o] == g.objects@[o]);
                        let r = g.objects@[o].copy->0;
                        if r.thread_id != tid {
                            assert(g.threads@[r.thread_id as int] == g1.threads@[r.thread_id as int]);
                        }
                    }
                }
                lemma_sync_kept(g1, *g);
                assert forall|r: int, o: int| g1.valid_thread(r) && g1.valid_obj(o) && (r == tid || g1.in_section(r))
                    implies #[trigger] g.view(r, o) == g1.view(r, o) by {
                    if o == oi {
                        assert(g.copy_of(o) == g.active_log(ti)[slot as int]);
                        if r != tid {
                            assert(g1.thread_wf(r));
                        }
                    } else {
                        assert(g.objects@[o] == g1.objects@[o]);
                        if let Some(c) = g1.objects@[o].copy {
                            assert(g1.objects_wf());
                            if c.thread_id == tid {
                                assert(g.active_log(ti)[c.slot as int] == g1.active_log(ti)[c.slot as int]);
                            } else {
                                assert(g.active_log(c.thread_id as int) == g1.active_log(c.thread_id as int));
                                assert(g.threads@[c.thread_id as int] == g1.threads@[c.thread_id as int]);
                            }
                        }
                    }
                }
            }
            Some(data)
        },
    }
}

/// Stores `data` in the copy of object `obj` that thread `tid` holds.
pub fn rlu_write<T: Copy>(g: &mut RluGlobal<T>, tid: usize, obj: Rlu, data: T)
    requires
        old(g).wf(),
        old(g).valid_thread(tid as int),
        old(g).in_section(tid as int),
        old(g).valid_obj(obj.index as int),
        old(g).locked_by(obj.index as int, tid as int),
    ensures
        final(g).wf(),
        final(g).view(tid as int, obj.index as int) == data,
        forall|o: int|
            #![trigger final(g).view(tid as int, o)]
            old(g).valid_obj(o) && o != obj.index ==> final(g).view(tid as int, o) == old(g).view(
                tid as int,
                o,
            ),
        final(g).objects@ == old(g).objects@,
        final(g).active_log(tid as int).len() == old(g).active_log(tid as int).len(),
        final(g).threads@[tid as int].run_cnt == old(g).threads@[tid as int].run_cnt,
        final(g).threads@[tid as int].is_writer == old(g).threads@[tid as int].is_writer,
        final(g).threads@[tid as int].local_clock == old(g).threads@[tid as int].local_clock,
        final(g).threads@[tid as int].free_nodes@ == old(g).threads@[tid as int].free_nodes@,
        final(g).threads@.len() == old(g).threads@.len(),
        forall|t: int|
            0 <= t < old(g).threads@.len() && t != tid ==> #[trigger] final(g).threads@[t]
                == old(g).threads@[t],
        final(g).global_clock == old(g).global_clock,
        old(g).views_kept(*final(g), tid as int),
{
    let ghost g0 = *g;
    proof {
        assert(g0.objects_wf());
        assert(g0.thread_wf(tid as int));
    }
    match g.objects[obj.index].copy {
        Some(c) => {
            g.threads[tid].write_log[c.log].log[c.slot].data = data;
            proof {
                let ti = tid as int;
                assert(g.active_log(ti) == g0.active_log(ti).update(
                    c.slot as int,
                    ObjCopy { data, ..g0.active_log(ti)[c.slot as int] },
                ));
                assert forall|t: int| 0 <= t < g0.threads@.len() && t != tid implies #[trigger] g.threads@[t]
                    == g0.threads@[t] by {}
                lemma_same_shape(g0, *g, ti);
                lemma_sync_kept(g0, *g);
                assert forall|r: int, o: int| g0.valid_thread(r) && g0.valid_obj(o) && (r == tid || g0.in_section(r))
                    && (r != tid || o != obj.index) implies #[trigger] g.view(r, o) == g0.view(r, o) by {
                    if let Some(d) = g0.objects@[o].copy {
                        if d.thread_id == tid {
                            if o == obj.index {
                                assert(g0.thread_wf(r));
                            } else {
                                assert(d.slot != c.slot);
                            }
                        } else {
                            assert(g.active_log(d.thread_id as int) == g0.active_log(d.thread_id as int));
                            assert(g.threads@[d.thread_id as int] == g0.threads@[d.thread_id as int]);
                        }
                    }
                }
            }
        },
        None => {},
    }
}

/// Releases every lock that thread `tid` holds: each object whose copy sits
/// in the thread's active log gets an empty lock slot, and the log is emptied.
/// The objects keep their payloads.
pub fn rlu_unlock_write_log<T>(g: &mut RluGlobal<T>, tid: usize)
    requires
        old(g).wf(),
        old(g).valid_thread(tid as int),
        old(g).in_section(tid as int) || (old(g).threads@[tid as int].committing && old(g).sync_done(
            tid as int,
        )),
    ensures
        final(g).wf(),
        old(g).threads@[tid as int].committing ==> final(g).sync_done(tid as int),
        final(g).active_log(tid as int).len() == 0,
        final(g).objects@.len() == old(g).objects@.len(),
        forall|o: int|
            #![trigger final(g).objects@[o]]
            old(g).valid_obj(o) ==> final(g).objects@[o] == if old(g).locked_by(o, tid as int) {
                ObjOriginal { copy: None, ..old(g).objects@[o] }
            } else {
                old(g).objects@[o]
            },
        forall|r: int, o: int|
            #![trigger final(g).view(r, o)]
            old(g).valid_thread(r) && old(g).valid_obj(o) ==> final(g).view(r, o) == if old(
                g,
            ).locked_by(o, tid as int) {
                old(g).objects@[o].data
            } else {
                old(g).view(r, o)
            },
        final(g).threads@.len() == old(g).threads@.len(),
        forall|t: int|
            0 <= t < old(g).threads@.len() && t != tid ==> #[trigger] final(g).threads@[t]
                == old(g).threads@[t],
        final(g).threads@[tid as int] == (RluThreadData {
            write_log: final(g).threads@[tid as int].write_log,
            ..old(g).threads@[tid as int]
        }),
        final(g).global_clock == old(g).global_clock,
{
    let ghost g0 = *g;
    let ghost ti = tid as int;
    proof {
        assert(g0.thread_wf(ti));
    }
    let cur = g.threads[tid].current_log;
    let n = g.threads[tid].write_log[cur].log.len();
    let mut i: usize = 0;
    while i < n
        invariant
            g0.wf(),
            g0.valid_thread(ti),
            g0.thread_wf(ti),
            ti == tid,
            cur == g0.threads@[ti].current_log,
            n == g0.active_log(ti).len(),
            0 <= i <= n,
            g.threads@ == g0.threads@,
            g.global_clock == g0.global_clock,
            g.objects@.len() == g0.objects@.len(),
            forall|o: int|
                #![trigger g.objects@[o]]
                g0.valid_obj(o) ==> g.objects@[o] == if g0.locked_by(o, ti)
                    && g0.objects@[o].copy->0.slot < i {
                    ObjOriginal { copy: None, ..g0.objects@[o] }
                } else {
                    g0.objects@[o]
                },
        decreases n - i,
    {
        let orig = g.threads[tid].write_log[cur].log[i].original;
        proof {
            assert(g0.copies_wf());
        }
        g.objects[orig.index].copy = None;
        i = i + 1;
        proof {
            assert forall|o: int| #![trigger g.objects@[o]] g0.valid_obj(o) implies g.objects@[o] == if g0.locked_by(o, ti)
                && g0.objects@[o].copy->0.slot < i {
                ObjOriginal { copy: None, ..g0.objects@[o] }
            } else {
                g0.objects@[o]
            } by {
                if o != orig.index {
                    assert(g0.objects_wf());
                    if g0.locked_by(o, ti) && g0.objects@[o].copy->0.slot == i - 1 {
                        assert(g0.active_log(ti)[i - 1].original.index == o);
                    }
                }
            }
        }
    }
    let ghost g1 = *g;
    g.threads[tid].write_log[cur].log.clear();
    proof {
        assert(g.active_log(ti).len() == 0);
        assert forall|t: int| 0 <= t < g0.threads@.len() && t != tid implies #[trigger] g.threads@[t]
            == g0.threads@[t] by {}
        assert forall|o: int| #![trigger g.objects@[o]] g0.valid_obj(o) && g0.objects@[o].copy is Some && !g0.locked_by(o, ti)
            implies g.objects@[o] == g0.objects@[o] by {}
        assert(g.thread_wf(ti)) by {
            assert(g0.thread_wf(ti));
        }
        lemma_other_threads_wf(g0, *g, ti);
        assert forall|u: int, s: int|
            g.valid_thread(u) && 0 <= s < g.active_log(u).len() implies {
            let c = #[trigger] g.active_log(u)[s];
            &&& c.thread_id == u
            &&& g.valid_obj(c.original.index as int)
            &&& g.objects@[c.original.index as int].copy == Some(
                CopyRef { thread_id: u as usize, log: g.threads@[u].current_log, slot: s as usize },
            )
        } by {
            assert(u != tid);
            assert(g.threads@[u] == g0.threads@[u]);
            assert(g0.active_log(u)[s] == g.active_log(u)[s]);
            assert(g0.copies_wf());
            let oo = g0.active_log(u)[s].original.index as int;
            assert(g.objects@[oo] == g0.objects@[oo]);
        }
        assert forall|o: int| g.valid_obj(o) && g.objects@[o].copy is Some implies {
            let r = (#[trigger] g.objects@[o]).copy->0;
            &&& g.valid_thread(r.thread_id as int)
            &&& r.log == g.threads@[r.thread_id as int].current_log
            &&& r.slot < g.active_log(r.thread_id as int).len()
            &&& g.active_log(r.thread_id as int)[r.slot as int].original.index == o
        } by {
            assert(g0.objects_wf());
            assert(g.objects@[o] == g0.objects@[o]);
            let r = g.objects@[o].copy->0;
            assert(g.threads@[r.thread_id as int] == g0.threads@[r.thread_id as int]);
        }
        lemma_sync_kept(g0, *g);
        assert forall|r: int, o: int| g0.valid_thread(r) && g0.valid_obj(o) implies #[trigger] g.view(r, o) == if g0.locked_by(o, ti) {
            g0.objects@[o].data
        } else {
            g0.view(r, o)
        } by {
            if let Some(c) = g0.objects@[o].copy {
                if c.thread_id != tid {
                    assert(g0.objects_wf());
                    assert(g.threads@[c.thread_id as int] == g0.threads@[c.thread_id as int]);
                }
            }
        }
    }
    proof {
        if g0.threads@[ti].committing {
            lemma_sync_done_kept(g0, *g, ti);
        }
    }
}

/// Ends thread `tid`'s section without committing: its locks are released,
/// its copies discarded, and the global clock is not touched.
pub fn rlu_abort<T>(g: &mut RluGlobal<T>, tid: usize)
    requires
        old(g).wf(),
        old(g).valid_thread(tid as int),
        old(g).in_section(tid as int),
    ensures
        final(g).wf(),
        !final(g).in_section(tid as int),
        final(g).threads@[tid as int].run_cnt == old(g).threads@[tid as int].run_cnt + 1,
        !final(g).threads@[tid as int].is_writer,
        !final(g).threads@[tid as int].committing,
        final(g).threads@[tid as int].local_clock == old(g).threads@[tid as int].local_clock,
        final(g).active_log(tid as int).len() == 0,
        forall|o: int|
            #![trigger final(g).objects@[o]]
            old(g).valid_obj(o) ==> !final(g).locked_by(o, tid as int) && final(g).objects@[o]
                == if old(g).locked_by(o, tid as int) {
                ObjOriginal { copy: None, ..old(g).objects@[o] }
            } else {
                old(g).objects@[o]
            },
        final(g).threads@[tid as int] == (RluThreadData {
            is_writer: false,
            run_cnt: (old(g).threads@[tid as int].run_cnt + 1) as usize,
            write_log: final(g).threads@[tid as int].write_log,
            ..old(g).threads@[tid as int]
        }),
        final(g).objects@.len() == old(g).objects@.len(),
        final(g).threads@.len() == old(g).threads@.len(),
        forall|t: int|
            0 <= t < old(g).threads@.len() && t != tid ==> #[trigger] final(g).threads@[t]
                == old(g).threads@[t],
        final(g).global_clock == old(g).global_clock,
        old(g).views_kept(*final(g), tid as int),
{
    let ghost g0 = *g;
    let ghost ti = tid as int;
    proof {
        assert(g0.thread_wf(ti));
    }
    if g.threads[tid].is_writer {
        rlu_unlock_write_log(g, tid);
    } else {
        proof {
            assert forall|o: int| g0.valid_obj(o) implies !g0.locked_by(o, ti) by {
                assert(g0.objects_wf());
            }
        }
    }
    let ghost g1 = *g;
    g.threads[tid].is_writer = false;
    g.threads[tid].run_cnt = g.threads[tid].run_cnt + 1;
    proof {
        assert forall|t: int| 0 <= t < g0.threads@.len() && t != tid implies #[trigger] g.threads@[t]
            == g0.threads@[t] by {
            assert(g1.threads@[t] == g0.threads@[t]);
        }
        assert forall|t: int| 0 <= t < g1.threads@.len() && t != tid implies #[trigger] g.threads@[t]
            == g1.threads@[t] by {}
        assert(g1.thread_wf(ti));
        lemma_same_shape(g1, *g, ti);
        assert forall|o: int| #![trigger g.objects@[o]] g0.valid_obj(o) implies !g.locked_by(o, ti) && g.objects@[o]
            == if g0.locked_by(o, ti) {
            ObjOriginal { copy: None, ..g0.objects@[o] }
        } else {
            g0.objects@[o]
        } by {
        }
        lemma_sync_kept(g1, *g);
        assert forall|r: int, o: int| g0.valid_thread(r) && r != tid && g0.in_section(r) && g0.valid_obj(o)
            implies #[trigger] g.view(r, o) == g0.view(r, o) by {
            assert(g1.view(r, o) == g.view(r, o)) by {
                if let Some(c) = g1.objects@[o].copy {
                    assert(g1.objects_wf());
                    if c.thread_id != tid {
                        assert(g.threads@[c.thread_id as int] == g1.threads@[c.thread_id as int]);
                    }
                }
            }
            if g0.locked_by(o, ti) {
                assert(g0.thread_wf(r));
            }
        }
    }
}

/// Copies the payload of each copy in thread `tid`'s active log into its
/// object. The locks stay in place.
pub fn rlu_writeback_write_log<T: Copy>(g: &mut RluGlobal<T>, tid: usize)
    requires
        old(g).wf(),
        old(g).valid_thread(tid as int),
        old(g).threads@[tid as int].committing,
        old(g).sync_done(tid as int),
    ensures
        final(g).wf(),
        final(g).sync_done(tid as int),
        final(g).objects@.len() == old(g).objects@.len(),
        forall|o: int|
            #![trigger final(g).objects@[o]]
            old(g).valid_obj(o) ==> final(g).objects@[o] == if old(g).locked_by(o, tid as int) {
                ObjOriginal { data: old(g).copy_of(o).data, ..old(g).objects@[o] }
            } else {
                old(g).objects@[o]
            },
        final(g).threads@ == old(g).threads@,
        final(g).global_clock == old(g).global_clock,
{
    let ghost g0 = *g;
    let ghost ti = tid as int;
    proof {
        assert(g0.thread_wf(ti));
    }
    let cur = g.threads[tid].current_log;
    let n = g.threads[tid].write_log[cur].log.len();
    let mut i: usize = 0;
    while i < n
        invariant
            g0.wf(),
            g0.valid_thread(ti),
            g0.thread_wf(ti),
            ti == tid,
            cur == g0.threads@[ti].current_log,
            n == g0.active_log(ti).len(),
            0 <= i <= n,
            g.threads@ == g0.threads@,
            g.global_clock == g0.global_clock,
            g.objects@.len() == g0.objects@.len(),
            forall|o: int|
                #![trigger g.objects@[o]]
                g0.valid_obj(o) ==> g.objects@[o] == if g0.locked_by(o, ti)
                    && g0.objects@[o].copy->0.slot < i {
                    ObjOriginal { data: g0.copy_of(o).data, ..g0.objects@[o] }
                } else {
                    g0.objects@[o]
                },
        decreases n - i,
    {
        let orig = g.threads[tid].write_log[cur].log[i].original;
        let data = g.threads[tid].write_log[cur].log[i].data;
        proof {
            assert(g0.copies_wf());
        }
        g.objects[orig.index].data = data;
        i = i + 1;
        proof {
            assert forall|o: int| #![trigger g.objects@[o]] g0.valid_obj(o) implies g.objects@[o] == if g0.locked_by(o, ti)
                && g0.objects@[o].copy->0.slot < i {
                ObjOriginal { data: g0.copy_of(o).data, ..g0.objects@[o] }
            } else {
                g0.objects@[o]
            } by {
                if o != orig.index {
                    assert(g0.objects_wf());
                    if g0.locked_by(o, ti) && g0.objects@[o].copy->0.slot == i - 1 {
                        assert(g0.active_log(ti)[i - 1].original.index == o);
                    }
                }
            }
        }
    }
    proof {
        assert forall|o: int| #![trigger g.objects@[o]] g0.valid_obj(o) implies g.objects@[o].copy == g0.objects@[o].copy by {}
        lemma_payload_only(g0, *g);
    }
    proof {
        lemma_sync_done_kept(g0, *g, ti);
    }
}

/// Ends writer `tid`'s section and takes its commit timestamp: the write
/// clock becomes the global clock plus one, the global clock advances by one,
/// and the run counters of all threads are recorded for the quiescence wait.
fn begin_commit<T>(g: &mut RluGlobal<T>, tid: usize)
    requires
        old(g).wf(),
        old(g).valid_thread(tid as int),
        old(g).in_section(tid as int),
        old(g).threads@[tid as int].is_writer,
        old(g).global_clock + 1 < WRITE_CLOCK_INFINITY,
    ensures
        final(g).wf(),
        final(g).threads@[tid as int].committing,
        !final(g).in_section(tid as int),
        !final(g).threads@[tid as int].is_writer,
        final(g).threads@[tid as int].run_cnt == old(g).threads@[tid as int].run_cnt + 1,
        final(g).threads@[tid as int].write_clock == old(g).global_clock + 1,
        final(g).global_clock == old(g).global_clock + 1,
        final(g).threads@[tid as int].sync_cnts@.len() == final(g).threads@.len(),
        forall|i: int|
            0 <= i < final(g).threads@.len() ==> #[trigger] final(g).threads@[tid as int].sync_cnts@[i]
                == final(g).threads@[i].run_cnt,
        final(g).threads@[tid as int] == (RluThreadData {
            is_writer: false,
            run_cnt: (old(g).threads@[tid as int].run_cnt + 1) as usize,
            write_clock: (old(g).global_clock + 1) as usize,
            committing: true,
            sync_cnts: final(g).threads@[tid as int].sync_cnts,
            ..old(g).threads@[tid as int]
        }),
        final(g).active_log(tid as int) == old(g).active_log(tid as int),
        final(g).threads@[tid as int].free_nodes@ == old(g).threads@[tid as int].free_nodes@,
        final(g).threads@[tid as int].local_clock == old(g).threads@[tid as int].local_clock,
        final(g).objects@ == old(g).objects@,
        final(g).threads@.len() == old(g).threads@.len(),
        forall|t: int|
            0 <= t < old(g).threads@.len() && t != tid ==> #[trigger] final(g).threads@[t]
                == old(g).threads@[t],
        old(g).views_kept(*final(g), tid as int),
{
    let ghost g0 = *g;
    let ghost ti = tid as int;
    proof {
        assert(g0.thread_wf(ti));
    }
    g.threads[tid].is_writer = false;
    g.threads[tid].run_cnt = g.threads[tid].run_cnt + 1;
    let wc = g.global_clock + 1;
    g.threads[tid].write_clock = wc;
    g.global_clock = wc;
    let n = g.threads.len();
    let mut cnts: Vec<usize> = Vec::new();
    let mut i: usize = 0;
    while i < n
        invariant
            n == g.threads@.len(),
            0 <= i <= n,
            cnts@.len() == i,
            forall|j: int| 0 <= j < i ==> #[trigger] cnts@[j] == g.threads@[j].run_cnt,
        decreases n - i,
    {
        cnts.push(g.threads[i].run_cnt);
        i = i + 1;
    }
    let ghost g1 = *g;
    g.threads[tid].sync_cnts = cnts;
    g.threads[tid].committing = true;
    proof {
        assert forall|t: int| 0 <= t < g0.threads@.len() && t != tid implies #[trigger] g.threads@[t]
            == g0.threads@[t] by {
            assert(g1.threads@[t] == g0.threads@[t]);
        }
        assert(g.active_log(ti) == g0.active_log(ti));
        lemma_same_shape(g0, *g, ti);
        assert forall|u: int| g.valid_thread(u) implies #[trigger] g.thread_wf(u) by {}
        assert forall|i: int| 0 <= i < g.threads@.len() implies #[trigger] g.threads@[ti].sync_cnts@[i]
            == g.threads@[i].run_cnt by {
            assert(g1.threads@[i].run_cnt == g.threads@[i].run_cnt);
        }
        assert(g.sync_wf()) by {
            assert forall|w: int, i: int|
                g.valid_thread(w) && g.valid_thread(i) && w != i && (#[trigger] g.threads@[w]).committing
                    && (#[trigger] g.threads@[i]).run_cnt % 2 == 1 && g.threads@[i].local_clock
                    < g.threads@[w].write_clock implies i < g.threads@[w].sync_cnts@.len()
                && g.threads@[w].sync_cnts@[i] == g.threads@[i].run_cnt by {
                if w != tid {
                    assert(g0.sync_wf());
                } else {
                    assert(g.threads@[ti].sync_cnts@[i] == g.threads@[i].run_cnt);
                }
            }
        }
        assert forall|r: int, o: int| g0.valid_thread(r) && r != tid && g0.in_section(r) && g0.valid_obj(o)
            implies #[trigger] g.view(r, o) == g0.view(r, o) by {
            assert(g0.thread_wf(r));
            assert(g.threads@[r] == g0.threads@[r]);
            if let Some(c) = g0.objects@[o].copy {
                assert(g0.objects_wf());
                if c.thread_id != tid {
                    assert(g.threads@[c.thread_id as int] == g0.threads@[c.thread_id as int]);
                }
            }
        }
    }
}

/// Commits writer `tid`'s section. It ends the section and takes the commit
/// timestamp; when no other thread is inside a section it also writes the
/// copies back, releases them, reclaims what was freed, swaps the logs and
/// resets the write clock. The answer is whether the commit is still pending:
/// the caller then waits for `rlu_synchronize` and ends it with
/// `rlu_finish_commit`.
pub fn rlu_commit_write_log<T: Copy>(g: &mut RluGlobal<T>, tid: usize) -> (pending: bool)
    requires
        old(g).wf(),
        old(g).valid_thread(tid as int),
        old(g).in_section(tid as int),
        old(g).threads@[tid as int].is_writer,
        old(g).global_clock + 1 < WRITE_CLOCK_INFINITY,
    ensures
        old(g).commit_outcome(*final(g), tid as int, pending),
{
    let ghost g0 = *g;
    let ghost ti = tid as int;
    begin_commit(g, tid);
    let ghost g1 = *g;
    proof {
        assert forall|i: int| 0 <= i < g0.threads@.len() && i != ti implies #[trigger] g1.quiescent_for(ti, i)
            == !g0.in_section(i) by {
            assert(g0.thread_wf(i));
            assert(g1.threads@[i] == g0.threads@[i]);
            assert(g1.threads@[ti].sync_cnts@[i] == g1.threads@[i].run_cnt);
        }
        if g1.sync_done(ti) {
            assert forall|i: int| 0 <= i < g0.threads@.len() && i != ti implies !#[trigger] g0.in_section(i) by {
                assert(g1.quiescent_for(ti, i));
            }
        } else {
            let i = choose|i: int| 0 <= i < g1.threads@[ti].sync_cnts@.len() && i != ti && !#[trigger] g1.quiescent_for(ti, i);
            assert(g0.in_section(i));
        }
    }
    if rlu_synchronize(g, tid) {
        rlu_finish_commit(g, tid);
        proof {
            assert forall|u: int| 0 <= u < g0.threads@.len() && u != ti implies #[trigger] g.threads@[u] == g0.threads@[u] by {
                assert(g1.threads@[u] == g0.threads@[u]);
            }
            assert forall|o: int| g0.valid_obj(o) && g0.locked_by(o, ti) implies #[trigger] g1.copy_of(o) == g0.copy_of(o) by {
                assert(g1.objects@[o] == g0.objects@[o]);
            }
            assert forall|o: int| g0.valid_obj(o) implies #[trigger] g1.queued_for_free(ti, o) == g0.queued_for_free(ti, o) by {}
            assert forall|o: int| #![trigger g.objects@[o]] g0.valid_obj(o) implies g.objects@[o] == (ObjOriginal {
                copy: if g0.locked_by(o, ti) {
                    None
                } else {
                    g0.objects@[o].copy
                },
                data: if g0.locked_by(o, ti) {
                    g0.copy_of(o).data
                } else {
                    g0.objects@[o].data
                },
                freed: g0.objects@[o].freed || g0.queued_for_free(ti, o),
            }) by {
                assert(g1.objects@[o] == g0.objects@[o]);
                assert(g1.queued_for_free(ti, o) == g0.queued_for_free(ti, o));
                if g0.locked_by(o, ti) {
                    assert(g1.copy_of(o) == g0.copy_of(o));
                }
            }
            assert forall|r: int, o: int| g0.valid_thread(r) && g0.valid_obj(o) && g0.locked_by(o, ti)
                implies #[trigger] g.view(r, o) == g0.copy_of(o).data by {
                assert(g1.copy_of(o) == g0.copy_of(o));
            }
            assert forall|r: int, o: int| g0.valid_thread(r) && r != ti && g0.in_section(r) && g0.valid_obj(o)
                implies #[trigger] g.view(r, o) == g0.view(r, o) by {
                assert(g1.threads@[r] == g0.threads@[r]);
                assert(g1.view(r, o) == g0.view(r, o));
            }
            assert(g.thread_wf(ti));
            assert(g.threads@[ti].current_log == 1 - g0.threads@[ti].current_log);
            assert(g.threads@[ti].run_cnt == g0.threads@[ti].run_cnt + 1);
            assert(!g.threads@[ti].is_writer);
            assert(g.threads@[ti].local_clock == g0.threads@[ti].local_clock);
            assert(g0.views_kept(*g, ti));
            assert(g.global_clock == g0.global_clock + 1);
        }
        false
    } else {
        proof {
            assert(g0.views_kept(*g, ti));
            assert(g.threads@[ti] == (RluThreadData {
                is_writer: false,
                run_cnt: (g0.threads@[ti].run_cnt + 1) as usize,
                write_clock: (g0.global_clock + 1) as usize,
                committing: true,
                sync_cnts: g.threads@[ti].sync_cnts,
                ..g0.threads@[ti]
            }));
        }
        true
    }
}

/// Closes thread `tid`'s reader section. A writer's section goes on into its
/// commit, as `rlu_commit_write_log` runs it; the answer is whether that
/// commit is still pending.
pub fn rlu_reader_unlock<T: Copy>(g: &mut RluGlobal<T>, tid: usize) -> (pending: bool)
    requires
        old(g).wf(),
        old(g).valid_thread(tid as int),
        old(g).in_section(tid as int),
        old(g).threads@[tid as int].is_writer ==> old(g).global_clock + 1 < WRITE_CLOCK_INFINITY,
    ensures
        final(g).wf(),
        !final(g).in_section(tid as int),
        !final(g).threads@[tid as int].is_writer,
        final(g).threads@[tid as int].run_cnt == old(g).threads@[tid as int].run_cnt + 1,
        final(g).threads@[tid as int].local_clock == old(g).threads@[tid as int].local_clock,
        final(g).threads@.len() == old(g).threads@.len(),
        forall|t: int|
            0 <= t < old(g).threads@.len() && t != tid ==> #[trigger] final(g).threads@[t]
                == old(g).threads@[t],
        old(g).views_kept(*final(g), tid as int),
        old(g).threads@[tid as int].is_writer ==> old(g).commit_outcome(
            *final(g),
            tid as int,
            pending,
        ),
        !old(g).threads@[tid as int].is_writer ==> {
            &&& !pending
            &&& final(g).threads@[tid as int] == (RluThreadData {
                run_cnt: (old(g).threads@[tid as int].run_cnt + 1) as usize,
                ..old(g).threads@[tid as int]
            })
            &&& final(g).objects@ == old(g).objects@
            &&& final(g).global_clock == old(g).global_clock
            &&& final(g).active_log(tid as int).len() == 0
        },
{
    let ghost g0 = *g;
    let ghost ti = tid as int;
    proof {
        assert(g0.thread_wf(ti));
    }
    if g.threads[tid].is_writer {
        rlu_commit_write_log(g, tid)
    } else {
        g.threads[tid].run_cnt = g.threads[tid].run_cnt + 1;
        proof {
            assert forall|t: int| 0 <= t < g0.threads@.len() && t != tid implies #[trigger] g.threads@[t]
                == g0.threads@[t] by {}
            lemma_same_shape(g0, *g, ti);
            assert(g.sync_wf()) by {
                assert forall|w: int, i: int|
                    g.valid_thread(w) && g.valid_thread(i) && w != i
                        && (#[trigger] g.threads@[w]).committing && (#[trigger] g.threads@[i]).run_cnt
                        % 2 == 1 && g.threads@[i].local_clock < g.threads@[w].write_clock implies i
                    < g.threads@[w].sync_cnts@.len() && g.threads@[w].sync_cnts@[i]
                    == g.threads@[i].run_cnt by {
                    assert(g0.sync_wf());
                }
            }
            assert forall|r: int, o: int| g0.valid_thread(r) && r != tid && g0.in_section(r) && g0.valid_obj(o)
                implies #[trigger] g.view(r, o) == g0.view(r, o) by {
                if let Some(c) = g0.objects@[o].copy {
                    assert(g0.objects_wf());
                    if c.thread_id != tid {
                        assert(g.threads@[c.thread_id as int] == g0.threads@[c.thread_id as int]);
                    }
                }
            }
        }
        false
    }
}

/// Whether committing thread `tid` may go on to write back: no other thread
/// is still inside a section that was open at the commit's timestamp with an
/// older snapshot.
pub fn rlu_synchronize<T>(g: &RluGlobal<T>, tid: usize) -> (done: bool)
    requires
        g.wf(),
        g.valid_thread(tid as int),
        g.threads@[tid as int].committing,
    ensures
        done == g.sync_done(tid as int),
{
    let ghost ti = tid as int;
    proof {
        assert(g.thread_wf(ti));
    }
    let th = &g.threads[tid];
    let n = th.sync_cnts.len();
    let mut i: usize = 0;
    while i < n
        invariant
            g.wf(),
            g.valid_thread(ti),
            g.thread_wf(ti),
            ti == tid,
            *th == g.threads@[ti],
            th.committing,
            n == th.sync_cnts@.len(),
            0 <= i <= n,
            forall|j: int| 0 <= j < i && j != ti ==> #[trigger] g.quiescent_for(ti, j),
        decreases n - i,
    {
        if i != tid {
            let cnt = th.sync_cnts[i];
            let other = &g.threads[i];
            if !(cnt % 2 == 0 || other.run_cnt != cnt || th.write_clock <= other.local_clock) {
                proof {
                    assert(!g.quiescent_for(ti, i as int));
                }
                return false;
            }
        }
        i = i + 1;
    }
    true
}

/// Makes thread `tid`'s other log the active one, and empties it.
pub fn rlu_swap_write_logs<T>(g: &mut RluGlobal<T>, tid: usize)
    requires
        old(g).wf(),
        old(g).valid_thread(tid as int),
        old(g).threads@[tid as int].committing,
        old(g).sync_done(tid as int),
        old(g).active_log(tid as int).len() == 0,
    ensures
        final(g).wf(),
        final(g).sync_done(tid as int),
        final(g).threads@[tid as int].current_log == 1 - old(g).threads@[tid as int].current_log,
        final(g).active_log(tid as int).len() == 0,
        final(g).threads@[tid as int] == (RluThreadData {
            write_log: final(g).threads@[tid as int].write_log,
            current_log: final(g).threads@[tid as int].current_log,
            ..old(g).threads@[tid as int]
        }),
        final(g).objects@ == old(g).objects@,
        final(g).global_clock == old(g).global_clock,
        final(g).threads@.len() == old(g).threads@.len(),
        forall|t: int|
            0 <= t < old(g).threads@.len() && t != tid ==> #[trigger] final(g).threads@[t]
                == old(g).threads@[t],
{
    let ghost g0 = *g;
    let ghost ti = tid as int;
    proof {
        assert(g0.thread_wf(ti));
    }
    let next = 1 - g.threads[tid].current_log;
    g.threads[tid].current_log = next;
    g.threads[tid].write_log[next].log.clear();
    proof {
        assert forall|t: int| 0 <= t < g0.threads@.len() && t != tid implies #[trigger] g.threads@[t]
            == g0.threads@[t] by {}
        assert forall|o: int| g0.valid_obj(o) implies !g0.locked_by(o, ti) by {
            assert(g0.objects_wf());
        }
        assert(g.thread_wf(ti)) by {
            assert(g0.thread_wf(ti));
        }
        lemma_other_threads_wf(g0, *g, ti);
        assert forall|u: int, s: int|
            g.valid_thread(u) && 0 <= s < g.active_log(u).len() implies {
            let c = #[trigger] g.active_log(u)[s];
            &&& c.thread_id == u
            &&& g.valid_obj(c.original.index as int)
            &&& g.objects@[c.original.index as int].copy == Some(
                CopyRef { thread_id: u as usize, log: g.threads@[u].current_log, slot: s as usize },
            )
        } by {
            assert(g.threads@[u] == g0.threads@[u]);
            assert(g0.active_log(u)[s] == g.active_log(u)[s]);
        }
        assert forall|o: int| g.valid_obj(o) && g.objects@[o].copy is Some implies {
            let r = (#[trigger] g.objects@[o]).copy->0;
            &&& g.valid_thread(r.thread_id as int)
            &&& r.log == g.threads@[r.thread_id as int].current_log
            &&& r.slot < g.active_log(r.thread_id as int).len()
            &&& g.active_log(r.thread_id as int)[r.slot as int].original.index == o
        } by {
            assert(g0.objects_wf());
            let r = g.objects@[o].copy->0;
            assert(g.threads@[r.thread_id as int] == g0.threads@[r.thread_id as int]);
        }
        lemma_sync_kept(g0, *g);
    }
    proof {
        lemma_sync_done_kept(g0, *g, ti);
    }
}

/// Reclaims every object on thread `tid`'s free list, and empties the list.
pub fn rlu_process_free<T>(g: &mut RluGlobal<T>, tid: usize)
    requires
        old(g).wf(),
        old(g).valid_thread(tid as int),
        old(g).threads@[tid as int].committing,
        old(g).sync_done(tid as int),
    ensures
        final(g).wf(),
        final(g).sync_done(tid as int),
        final(g).threads@[tid as int].free_nodes@.len() == 0,
        final(g).threads@[tid as int] == (RluThreadData {
            free_nodes: final(g).threads@[tid as int].free_nodes,
            ..old(g).threads@[tid as int]
        }),
        final(g).objects@.len() == old(g).objects@.len(),
        forall|o: int|
            #![trigger final(g).objects@[o]]
            old(g).valid_obj(o) ==> final(g).objects@[o] == (ObjOriginal {
                freed: old(g).objects@[o].freed || old(g).queued_for_free(tid as int, o),
                ..old(g).objects@[o]
            }),
        final(g).global_clock == old(g).global_clock,
        final(g).threads@.len() == old(g).threads@.len(),
        forall|t: int|
            0 <= t < old(g).threads@.len() && t != tid ==> #[trigger] final(g).threads@[t]
                == old(g).threads@[t],
{
    let ghost g0 = *g;
    let ghost ti = tid as int;
    proof {
        assert(g0.thread_wf(ti));
    }
    let n = g.threads[tid].free_nodes.len();
    let mut i: usize = 0;
    while i < n
        invariant
            g0.wf(),
            g0.valid_thread(ti),
            g0.thread_wf(ti),
            ti == tid,
            n == g0.threads@[ti].free_nodes@.len(),
            0 <= i <= n,
            g.threads@ == g0.threads@,
            g.global_clock == g0.global_clock,
            g.objects@.len() == g0.objects@.len(),
            forall|o: int|
                #![trigger g.objects@[o]]
                g0.valid_obj(o) ==> g.objects@[o] == (ObjOriginal {
                    freed: g0.objects@[o].freed || exists|k: int|
                        0 <= k < i && (#[trigger] g0.threads@[ti].free_nodes@[k]).index == o,
                    ..g0.objects@[o]
                }),
        decreases n - i,
    {
        let f = g.threads[tid].free_nodes[i];
        proof {
            assert(g0.valid_obj(g0.threads@[ti].free_nodes@[i as int].index as int));
        }
        g.objects[f.index].freed = true;
        i = i + 1;
        proof {
            assert forall|o: int| #![trigger g.objects@[o]] g0.valid_obj(o) implies g.objects@[o] == (ObjOriginal {
                freed: g0.objects@[o].freed || exists|k: int|
                    0 <= k < i && (#[trigger] g0.threads@[ti].free_nodes@[k]).index == o,
                ..g0.objects@[o]
            }) by {
                if o == f.index {
                    assert(g0.threads@[ti].free_nodes@[i - 1].index == o);
                } else {
                    if exists|k: int| 0 <= k < i && (#[trigger] g0.threads@[ti].free_nodes@[k]).index == o {
                        let k = choose|k: int| 0 <= k < i && (#[trigger] g0.threads@[ti].free_nodes@[k]).index == o;
                        assert(k < i - 1);
                    }
                }
            }
        }
    }
    let ghost g1 = *g;
    proof {
        assert forall|o: int| #![trigger g1.objects@[o]] g0.valid_obj(o) implies g1.objects@[o].copy == g0.objects@[o].copy by {}
        lemma_payload_only(g0, g1);
        assert(g1.thread_wf(ti));
    }
    g.threads[tid].free_nodes.clear();
    proof {
        assert forall|t: int| 0 <= t < g0.threads@.len() && t != tid implies #[trigger] g.threads@[t]
            == g0.threads@[t] by {}
        lemma_same_shape(g1, *g, ti);
        lemma_sync_kept(g1, *g);
    }
    proof {
        lemma_sync_done_kept(g0, *g, ti);
    }
}

/// Queues object `obj`, which thread `tid` holds locked, for reclamation at
/// the end of the thread's next commit.
pub fn rlu_free<T>(g: &mut RluGlobal<T>, tid: usize, obj: Rlu)
    requires
        old(g).wf(),
        old(g).valid_thread(tid as int),
        old(g).in_section(tid as int),
        old(g).valid_obj(obj.index as int),
        old(g).locked_by(obj.index as int, tid as int),
        old(g).threads@[tid as int].free_nodes@.len() < RLU_MAX_FREE_NODES,
    ensures
        final(g).wf(),
        final(g).threads@[tid as int] == (RluThreadData {
            free_nodes: final(g).threads@[tid as int].free_nodes,
            ..old(g).threads@[tid as int]
        }),
        final(g).threads@[tid as int].free_nodes@ == old(g).threads@[tid as int].free_nodes@.push(obj),
        final(g).objects@ == old(g).objects@,
        final(g).global_clock == old(g).global_clock,
        final(g).threads@.len() == old(g).threads@.len(),
        forall|t: int|
            0 <= t < old(g).threads@.len() && t != tid ==> #[trigger] final(g).threads@[t]
                == old(g).threads@[t],
        old(g).views_kept(*final(g), tid as int),
{
    let ghost g0 = *g;
    let ghost ti = tid as int;
    proof {
        assert(g0.thread_wf(ti));
    }
    g.threads[tid].free_nodes.push(obj);
    proof {
        assert forall|t: int| 0 <= t < g0.threads@.len() && t != tid implies #[trigger] g.threads@[t]
            == g0.threads@[t] by {}
        assert forall|k: int| 0 <= k < g.threads@[ti].free_nodes@.len() implies g.valid_obj(
            #[trigger] g.threads@[ti].free_nodes@[k].index as int) by {
            if k < g0.threads@[ti].free_nodes@.len() {
                assert(g0.valid_obj(g0.threads@[ti].free_nodes@[k].index as int));
            }
        }
        lemma_same_shape(g0, *g, ti);
        lemma_sync_kept(g0, *g);
        assert forall|r: int, o: int| g0.valid_thread(r) && r != tid && g0.in_section(r) && g0.valid_obj(o)
            implies #[trigger] g.view(r, o) == g0.view(r, o) by {
            if let Some(c) = g0.objects@[o].copy {
                assert(g0.objects_wf());
                if c.thread_id != tid {
                    assert(g.threads@[c.thread_id as int] == g0.threads@[c.thread_id as int]);
                }
            }
        }
    }
}

/// Ends committing thread `tid`'s commit once `rlu_synchronize` allows it:
/// writes its copies back, releases its locks, resets its write clock, swaps
/// its logs and reclaims what it freed. Every thread then reads the new
/// values, and no reader inside a section sees any object change.
pub fn rlu_finish_commit<T: Copy>(g: &mut RluGlobal<T>, tid: usize)
    requires
        old(g).wf(),
        old(g).valid_thread(tid as int),
        old(g).threads@[tid as int].committing,
        old(g).sync_done(tid as int),
    ensures
        final(g).wf(),
        !final(g).threads@[tid as int].committing,
        final(g).threads@[tid as int].write_clock == WRITE_CLOCK_INFINITY,
        final(g).threads@[tid as int].run_cnt == old(g).threads@[tid as int].run_cnt,
        final(g).threads@[tid as int].local_clock == old(g).threads@[tid as int].local_clock,
        final(g).threads@[tid as int].current_log == 1 - old(g).threads@[tid as int].current_log,
        final(g).active_log(tid as int).len() == 0,
        final(g).threads@[tid as int].free_nodes@.len() == 0,
        final(g).objects@.len() == old(g).objects@.len(),
        forall|o: int|
            #![trigger final(g).objects@[o]]
            old(g).valid_obj(o) ==> final(g).objects@[o] == (ObjOriginal {
                copy: if old(g).locked_by(o, tid as int) {
                    None
                } else {
                    old(g).objects@[o].copy
                },
                data: if old(g).locked_by(o, tid as int) {
                    old(g).copy_of(o).data
                } else {
                    old(g).objects@[o].data
                },
                freed: old(g).objects@[o].freed || old(g).queued_for_free(tid as int, o),
            }),
        forall|r: int, o: int|
            #![trigger final(g).view(r, o)]
            old(g).valid_thread(r) && old(g).valid_obj(o) && old(g).locked_by(o, tid as int)
                ==> final(g).view(r, o) == old(g).copy_of(o).data,
        final(g).global_clock == old(g).global_clock,
        final(g).threads@.len() == old(g).threads@.len(),
        forall|t: int|
            0 <= t < old(g).threads@.len() && t != tid ==> #[trigger] final(g).threads@[t]
                == old(g).threads@[t],
        old(g).views_kept(*final(g), tid as int),
{
    let ghost g0 = *g;
    let ghost ti = tid as int;
    proof {
        assert(g0.thread_wf(ti));
    }
    rlu_writeback_write_log(g, tid);
    let ghost g1 = *g;
    rlu_unlock_write_log(g, tid);
    let ghost g2 = *g;
    rlu_swap_write_logs(g, tid);
    let ghost g3 = *g;
    rlu_process_free(g, tid);
    let ghost g4 = *g;
    g.threads[tid].write_clock = WRITE_CLOCK_INFINITY;
    g.threads[tid].committing = false;
    proof {
        assert forall|t: int| 0 <= t < g4.threads@.len() && t != tid implies #[trigger] g.threads@[t]
            == g4.threads@[t] by {}
        assert(g4.thread_wf(ti));
        lemma_same_shape(g4, *g, ti);
        lemma_sync_kept(g4, *g);
    }
    proof {
        assert forall|t: int| 0 <= t < g0.threads@.len() && t != tid implies #[trigger] g.threads@[t]
            == g0.threads@[t] by {
            assert(g1.threads@[t] == g0.threads@[t]);
            assert(g2.threads@[t] == g1.threads@[t]);
            assert(g3.threads@[t] == g2.threads@[t]);
            assert(g4.threads@[t] == g3.threads@[t]);
        }
        assert(g3.threads@[ti].free_nodes@ == g0.threads@[ti].free_nodes@);
        assert forall|o: int| #![trigger g.objects@[o]] g0.valid_obj(o) implies g.objects@[o] == (ObjOriginal {
            copy: if g0.locked_by(o, ti) {
                None
            } else {
                g0.objects@[o].copy
            },
            data: if g0.locked_by(o, ti) {
                g0.copy_of(o).data
            } else {
                g0.objects@[o].data
            },
            freed: g0.objects@[o].freed || g0.queued_for_free(ti, o),
        }) by {
            assert(g3.objects@[o] == g2.objects@[o]);
            assert(g.objects@[o] == g4.objects@[o]);
            assert(g0.queued_for_free(ti, o) == g3.queued_for_free(ti, o));
            assert(g1.locked_by(o, ti) == g0.locked_by(o, ti));
        }
        // A commit leaves each object with the value each reader in a section saw.
        assert forall|r: int, o: int| g0.valid_thread(r) && g0.valid_obj(o) implies {
            &&& (g0.locked_by(o, ti) ==> #[trigger] g.view(r, o) == g0.copy_of(o).data)
            &&& (r != tid && g0.in_section(r) ==> g.view(r, o) == g0.view(r, o))
        } by {
            assert(g.threads@[r] == g0.threads@[r] || r == tid);
            if let Some(c) = g0.objects@[o].copy {
                assert(g0.objects_wf());
                if c.thread_id == tid {
                    if r != tid && g0.in_section(r) {
                        assert(g0.thread_wf(r));
                        assert(g0.sync_wf());
                        if g0.threads@[r].local_clock < g0.threads@[ti].write_clock {
                            assert(g0.quiescent_for(ti, r));
                        }
                    }
                } else {
                    assert(g.threads@[c.thread_id as int] == g0.threads@[c.thread_id as int]);
                    assert(g.active_log(c.thread_id as int) == g0.active_log(c.thread_id as int));
                }
            }
        }
    }
}

/// At most one thread owns an object's copy: two copies in active logs that
/// stand for the same object are one and the same slot of one thread's log.
pub proof fn lemma_single_owner<T>(g: RluGlobal<T>, t1: int, s1: int, t2: int, s2: int)
    requires
        g.wf(),
        g.valid_thread(t1),
        g.valid_thread(t2),
        0 <= s1 < g.active_log(t1).len(),
        0 <= s2 < g.active_log(t2).len(),
        g.active_log(t1)[s1].original == g.active_log(t2)[s2].original,
    ensures
        t1 == t2,
        s1 == s2,
{
    assert(g.copies_wf());
    assert(g.thread_wf(t1));
    assert(g.thread_wf(t2));
}

/// Reads inside one section are repeatable: when thread `r` stays in its
/// section across a step of thread `u` and then a step of thread `w`, both
/// other threads, each object keeps the value `r` saw before them.
pub proof fn lemma_read_idempotence<T>(
    a: RluGlobal<T>,
    b: RluGlobal<T>,
    c: RluGlobal<T>,
    u: int,
    w: int,
    r: int,
    o: int,
)
    requires
        a.views_kept(b, u),
        b.views_kept(c, w),
        r != u,
        r != w,
        a.valid_thread(r),
        b.valid_thread(r),
        a.in_section(r),
        b.in_section(r),
        a.valid_obj(o),
        b.valid_obj(o),
    ensures
        c.view(r, o) == a.view(r, o),
{
    assert(b.view(r, o) == a.view(r, o));
    assert(c.view(r, o) == b.view(r, o));
}

/// A copy whose writer took its commit timestamp within a reader's snapshot
/// is what that reader sees; a copy whose writer has not committed by then is
/// hidden from it, and the reader sees the object's committed payload.
pub proof fn lemma_snapshot_visibility<T>(g: RluGlobal<T>, w: int, r: int, o: int)
    requires
        g.wf(),
        g.valid_thread(w),
        g.valid_thread(r),
        g.valid_obj(o),
        g.locked_by(o, w),
    ensures
        g.threads@[w].write_clock <= g.threads@[r].local_clock ==> g.view(r, o) == g.copy_of(o).data,
        r != w && g.threads@[r].local_clock < g.threads@[w].write_clock ==> g.view(r, o)
            == g.objects@[o].data,
        !g.threads@[w].committing && r != w ==> g.view(r, o) == g.objects@[o].data,
{
    assert(g.thread_wf(w));
    assert(g.thread_wf(r));
}

/// Whether a commit may go on depends only on the run counters and snapshots
/// of the threads, and on the commit's own clock and recorded counters.
proof fn lemma_sync_done_kept<T>(a: RluGlobal<T>, b: RluGlobal<T>, t: int)
    requires
        a.wf(),
        a.valid_thread(t),
        a.threads@[t].committing,
        b.threads@.len() == a.threads@.len(),
        forall|u: int|
            0 <= u < a.threads@.len() ==> (#[trigger] b.threads@[u]).run_cnt == a.threads@[u].run_cnt
                && b.threads@[u].local_clock == a.threads@[u].local_clock,
        b.threads@[t].sync_cnts@ == a.threads@[t].sync_cnts@,
        b.threads@[t].write_clock == a.threads@[t].write_clock,
    ensures
        b.sync_done(t) == a.sync_done(t),
{
    assert(a.thread_wf(t));
    assert forall|i: int| 0 <= i < a.threads@[t].sync_cnts@.len() && i != t implies #[trigger] b.quiescent_for(
        t,
        i,
    ) == a.quiescent_for(t, i) by {
        assert(b.threads@[i].run_cnt == a.threads@[i].run_cnt);
        assert(b.threads@[t].run_cnt == a.threads@[t].run_cnt);
    }
    if a.sync_done(t) {
        assert forall|i: int| 0 <= i < b.threads@[t].sync_cnts@.len() && i != t implies #[trigger] b.quiescent_for(
            t,
            i,
        ) by {
            assert(a.quiescent_for(t, i));
        }
    }
    if b.sync_done(t) {
        assert forall|i: int| 0 <= i < a.threads@[t].sync_cnts@.len() && i != t implies #[trigger] a.quiescent_for(
            t,
            i,
        ) by {
            assert(b.quiescent_for(t, i));
        }
    }
}

/// Well-formedness survives a step that only changes payloads or reclamation
/// marks, or adds unlocked objects.
proof fn lemma_payload_only<T>(a: RluGlobal<T>, b: RluGlobal<T>)
    requires
        a.wf(),
        b.threads@ == a.threads@,
        b.global_clock == a.global_clock,
        b.objects@.len() >= a.objects@.len(),
        forall|o: int| #![trigger b.objects@[o]] a.valid_obj(o) ==> b.objects@[o].copy == a.objects@[o].copy,
        forall|o: int|
            #![trigger b.objects@[o]]
            a.objects@.len() <= o < b.objects@.len() ==> b.objects@[o].copy is None,
    ensures
        b.wf(),
{
    assert forall|t: int| b.valid_thread(t) implies #[trigger] b.thread_wf(t) by {
        assert(a.thread_wf(t));
        let th = b.threads@[t];
        assert forall|k: int| 0 <= k < th.free_nodes@.len() implies b.valid_obj(
            #[trigger] th.free_nodes@[k].index as int,
        ) by {
            assert(a.valid_obj(th.free_nodes@[k].index as int));
        }
    }
    assert forall|t: int, s: int|
        b.valid_thread(t) && 0 <= s < b.active_log(t).len() implies {
        let c = #[trigger] b.active_log(t)[s];
        &&& c.thread_id == t
        &&& b.valid_obj(c.original.index as int)
        &&& b.objects@[c.original.index as int].copy == Some(
            CopyRef { thread_id: t as usize, log: b.threads@[t].current_log, slot: s as usize },
        )
    } by {
        assert(a.copies_wf());
        assert(a.active_log(t)[s] == b.active_log(t)[s]);
    }
    assert forall|o: int| b.valid_obj(o) && b.objects@[o].copy is Some implies {
        let r = (#[trigger] b.objects@[o]).copy->0;
        &&& b.valid_thread(r.thread_id as int)
        &&& r.log == b.threads@[r.thread_id as int].current_log
        &&& r.slot < b.active_log(r.thread_id as int).len()
        &&& b.active_log(r.thread_id as int)[r.slot as int].original.index == o
    } by {
        assert(a.objects_wf());
        assert(a.objects@[o].copy == b.objects@[o].copy);
    }
    lemma_sync_kept(a, b);
}

/// Every thread but `t` is unchanged, and `t` is well-formed on its own:
/// then every thread is, in a state with no fewer objects and no earlier clock.
proof fn lemma_other_threads_wf<T>(a: RluGlobal<T>, b: RluGlobal<T>, t: int)
    requires
        a.wf(),
        b.threads@.len() == a.threads@.len(),
        b.objects@.len() >= a.objects@.len(),
        b.global_clock >= a.global_clock,
        forall|u: int| 0 <= u < a.threads@.len() && u != t ==> #[trigger] b.threads@[u] == a.threads@[u],
        a.valid_thread(t) ==> b.thread_wf(t),
    ensures
        forall|u: int| b.valid_thread(u) ==> #[trigger] b.thread_wf(u),
{
    assert forall|u: int| b.valid_thread(u) implies #[trigger] b.thread_wf(u) by {
        if u != t {
            assert(a.thread_wf(u));
            assert(b.threads@[u] == a.threads@[u]);
            let th = b.threads@[u];
            assert forall|k: int| 0 <= k < th.free_nodes@.len() implies b.valid_obj(
                #[trigger] th.free_nodes@[k].index as int,
            ) by {
                assert(a.valid_obj(a.threads@[u].free_nodes@[k].index as int));
            }
        }
    }
}

/// The snapshot invariant survives a step that starts no commit and changes
/// neither the run counter nor the snapshot of any thread left inside a section.
proof fn lemma_sync_kept<T>(a: RluGlobal<T>, b: RluGlobal<T>)
    requires
        a.sync_wf(),
        b.threads@.len() == a.threads@.len(),
        forall|u: int|
            0 <= u < a.threads@.len() && (#[trigger] b.threads@[u]).committing ==> a.threads@[u].committing
                && b.threads@[u].write_clock == a.threads@[u].write_clock && b.threads@[u].sync_cnts@
                == a.threads@[u].sync_cnts@,
        forall|u: int|
            0 <= u < a.threads@.len() && (#[trigger] b.threads@[u]).run_cnt % 2 == 1 ==> b.threads@[u].run_cnt
                == a.threads@[u].run_cnt && b.threads@[u].local_clock == a.threads@[u].local_clock,
    ensures
        b.sync_wf(),
{
    assert forall|w: int, i: int|
        b.valid_thread(w) && b.valid_thread(i) && w != i && (#[trigger] b.threads@[w]).committing
            && (#[trigger] b.threads@[i]).run_cnt % 2 == 1 && b.threads@[i].local_clock
            < b.threads@[w].write_clock implies i < b.threads@[w].sync_cnts@.len()
        && b.threads@[w].sync_cnts@[i] == b.threads@[i].run_cnt by {
    }
}

/// The threads other than `t` are unchanged, and `t` keeps its logs, its place
/// in them and its writer state: the copies and the lock slots still agree.
proof fn lemma_same_shape<T>(a: RluGlobal<T>, b: RluGlobal<T>, t: int)
    requires
        a.wf(),
        a.valid_thread(t),
        b.threads@.len() == a.threads@.len(),
        b.objects@ == a.objects@,
        b.global_clock >= a.global_clock,
        forall|u: int| 0 <= u < a.threads@.len() && u != t ==> #[trigger] b.threads@[u] == a.threads@[u],
        b.threads@[t].thread_id == a.threads@[t].thread_id,
        b.threads@[t].current_log == a.threads@[t].current_log,
        b.threads@[t].write_log@.len() == 2,
        b.threads@[t].write_log@[1 - b.threads@[t].current_log].log@.len() == 0,
        b.active_log(t).len() == a.active_log(t).len(),
        forall|s: int|
            0 <= s < a.active_log(t).len() ==> (#[trigger] b.active_log(t)[s]).thread_id
                == a.active_log(t)[s].thread_id && b.active_log(t)[s].original
                == a.active_log(t)[s].original,
        b.threads@[t].free_nodes@.len() <= RLU_MAX_FREE_NODES,
        forall|k: int|
            0 <= k < b.threads@[t].free_nodes@.len() ==> b.valid_obj(
                #[trigger] b.threads@[t].free_nodes@[k].index as int,
            ),
        b.threads@[t].local_clock <= b.global_clock,
        b.threads@[t].is_writer ==> b.threads@[t].run_cnt % 2 == 1,
        b.threads@[t].run_cnt % 2 == 1 ==> b.threads@[t].run_cnt < usize::MAX,
        if b.threads@[t].committing {
            &&& b.threads@[t].run_cnt % 2 == 0
            &&& 1 <= b.threads@[t].write_clock <= b.global_clock
            &&& b.threads@[t].sync_cnts@.len() <= b.threads@.len()
        } else {
            &&& b.threads@[t].write_clock == WRITE_CLOCK_INFINITY
            &&& b.active_log(t).len() > 0 ==> b.threads@[t].is_writer
        },
    ensures
        forall|u: int| b.valid_thread(u) ==> #[trigger] b.thread_wf(u),
        b.copies_wf(),
        b.objects_wf(),
        forall|u: int| a.valid_thread(u) && u != t ==> #[trigger] b.active_log(u) == a.active_log(u),
{
    assert forall|u: int| a.valid_thread(u) && u != t implies #[trigger] b.active_log(u) == a.active_log(u) by {
        if u != t {
            assert(b.threads@[u] == a.threads@[u]);
        }
    }
    assert forall|u: int| b.valid_thread(u) implies #[trigger] b.thread_wf(u) by {
        assert(a.thread_wf(u));
        if u != t {
            assert(b.threads@[u] == a.threads@[u]);
            assert(b.active_log(u) == a.active_log(u));
        }
        let th = b.threads@[u];
        assert forall|k: int| 0 <= k < th.free_nodes@.len() implies b.valid_obj(
            #[trigger] th.free_nodes@[k].index as int,
        ) by {
            if u != t {
                assert(a.valid_obj(a.threads@[u].free_nodes@[k].index as int));
            }
        }
    }
    assert forall|u: int, s: int|
        b.valid_thread(u) && 0 <= s < b.active_log(u).len() implies {
        let c = #[trigger] b.active_log(u)[s];
        &&& c.thread_id == u
        &&& b.valid_obj(c.original.index as int)
        &&& b.objects@[c.original.index as int].copy == Some(
            CopyRef { thread_id: u as usize, log: b.threads@[u].current_log, slot: s as usize },
        )
    } by {
        if u != t {
            assert(b.active_log(u) == a.active_log(u));
            assert(b.threads@[u] == a.threads@[u]);
        }
        assert(a.active_log(u)[s].original == b.active_log(u)[s].original);
    }
    assert forall|o: int| b.valid_obj(o) && b.objects@[o].copy is Some implies {
        let r = (#[trigger] b.objects@[o]).copy->0;
        &&& b.valid_thread(r.thread_id as int)
        &&& r.log == b.threads@[r.thread_id as int].current_log
        &&& r.slot < b.active_log(r.thread_id as int).len()
        &&& b.active_log(r.thread_id as int)[r.slot as int].original.index == o
    } by {
        assert(a.objects@[o] == b.objects@[o]);
        let r = b.objects@[o].copy->0;
        if r.thread_id != t {
            assert(b.active_log(r.thread_id as int) == a.active_log(r.thread_id as int));
            assert(b.threads@[r.thread_id as int] == a.threads@[r.thread_id as int]);
        }
        assert(b.active_log(r.thread_id as int)[r.slot as int].original
            == a.active_log(r.thread_id as int)[r.slot as int].original);
    }
}

} // verus!
