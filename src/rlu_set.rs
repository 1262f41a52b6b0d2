//! A sorted set of integers on top of the runtime, for one thread per handle.

use crate::rlu::{
    rlu_abort, rlu_dereference, rlu_reader_lock, rlu_reader_unlock, rlu_thread_init, rlu_try_lock,
    rlu_write, ObjOriginal, Rlu, RluGlobal, RLU_MAX_THREADS, WRITE_CLOCK_INFINITY,
};
use vstd::prelude::*;

verus! {

/// A node of the sorted list: an element and the handle of the next node.
#[derive(Clone, Copy, Debug)]
pub struct RluNode<T> {
    pub elem: T,
    pub next: Option<Rlu>,
}

/// A set kept as a sorted singly linked list of runtime objects behind a
/// sentinel head node, used by one registered thread.
pub struct RluSet {
    pub head: Rlu,
    pub thread_id: usize,
}

/// What one attempt at an insertion did.
#[derive(Clone, Copy, PartialEq, Eq, Structural, Debug)]
pub enum InsertStep {
    /// The element is already in the set; the section ended without a write.
    Present,
    /// Another thread holds the node the new one goes after; the section was
    /// aborted and the attempt can be repeated.
    Contended,
    /// The new node `node` now follows `prev`, and the thread committed the
    /// change; `pending` says whether the commit still waits for readers
    /// (`rlu_synchronize`, then `rlu_finish_commit`).
    Linked { prev: Rlu, node: Rlu, pending: bool },
    /// The list does not end within the object arena; the section was aborted.
    Unterminated,
}

/// Each element is below every later one.
pub open spec fn strictly_ascending(s: Seq<usize>) -> bool {
    forall|i: int, j: int| 0 <= i < j < s.len() ==> s[i] < s[j]
}

/// The ASCII code of a decimal digit.
pub open spec fn digit(d: nat) -> u8 {
    (48 + d) as u8
}

/// The decimal digits of `n`, most significant first.
pub open spec fn decimal(n: nat) -> Seq<u8>
    decreases n,
{
    if n < 10 {
        seq![digit(n)]
    } else {
        decimal(n / 10) + seq![digit(n % 10)]
    }
}

/// Each element in decimal, followed by a comma and a space.
pub open spec fn render_items(s: Seq<usize>) -> Seq<u8>
    decreases s.len(),
{
    if s.len() == 0 {
        Seq::empty()
    } else {
        render_items(s.drop_last()) + decimal(s.last() as nat) + seq![44u8, 32u8]
    }
}

/// The text of a set: its elements between braces.
pub open spec fn render(s: Seq<usize>) -> Seq<u8> {
    seq![123u8] + render_items(s) + seq![125u8]
}

pub open spec fn is_ascii(s: Seq<u8>) -> bool {
    forall|i: int| 0 <= i < s.len() ==> #[trigger] s[i] < 128
}

/// The elements on the list from `node` on, as thread `t` sees it with
/// snapshot `clock`, for at most `fuel` nodes; the walk stops at a handle that
/// names no live object.
pub open spec fn elems_from(
    g: RluGlobal<RluNode<usize>>,
    t: int,
    clock: int,
    node: Option<Rlu>,
    fuel: nat,
) -> Seq<usize>
    decreases fuel,
{
    if fuel == 0 {
        Seq::empty()
    } else {
        match node {
            None => Seq::empty(),
            Some(n) => {
                if g.valid_obj(n.index as int) && !g.objects@[n.index as int].freed {
                    seq![g.view_at(t, clock, n.index as int).elem] + elems_from(
                        g,
                        t,
                        clock,
                        g.view_at(t, clock, n.index as int).next,
                        (fuel - 1) as nat,
                    )
                } else {
                    Seq::empty()
                }
            },
        }
    }
}

proof fn lemma_elems_same_views(
    a: RluGlobal<RluNode<usize>>,
    b: RluGlobal<RluNode<usize>>,
    t: int,
    ca: int,
    cb: int,
    node: Option<Rlu>,
    fuel: nat,
)
    requires
        a.objects@.len() == b.objects@.len(),
        forall|o: int| #![trigger b.objects@[o]] a.valid_obj(o) ==> b.objects@[o].freed == a.objects@[o].freed,
        forall|o: int|
            #![trigger b.view_at(t, cb, o)]
            a.valid_obj(o) ==> b.view_at(t, cb, o) == a.view_at(t, ca, o),
    ensures
        elems_from(b, t, cb, node, fuel) == elems_from(a, t, ca, node, fuel),
    decreases fuel,
{
    if fuel > 0 {
        if let Some(n) = node {
            if a.valid_obj(n.index as int) {
                assert(b.objects@[n.index as int].freed == a.objects@[n.index as int].freed);
                assert(b.view_at(t, cb, n.index as int) == a.view_at(t, ca, n.index as int));
                lemma_elems_same_views(
                    a,
                    b,
                    t,
                    ca,
                    cb,
                    a.view_at(t, ca, n.index as int).next,
                    (fuel - 1) as nat,
                );
            }
        }
    }
}

proof fn lemma_decimal_ascii(n: nat)
    ensures
        is_ascii(decimal(n)),
        decimal(n).len() >= 1,
    decreases n,
{
    if n >= 10 {
        lemma_decimal_ascii(n / 10);
    }
}

/// Appends the decimal digits of `n`.
fn push_decimal(out: &mut Vec<u8>, n: usize)
    ensures
        final(out)@ == old(out)@ + decimal(n as nat),
    decreases n,
{
    if n >= 10 {
        push_decimal(out, n / 10);
    }
    out.push(48 + (n % 10) as u8);
    proof {
        assert(final(out)@ =~= old(out)@ + decimal(n as nat));
    }
}

/// Relies on String::from_utf8: ASCII bytes are valid UTF-8, and each becomes
/// the character with the same code.
#[verifier::external_body]
fn ascii_string(bytes: Vec<u8>) -> (r: String)
    requires
        is_ascii(bytes@),
    ensures
        r@ == bytes@.map_values(|b: u8| b as char),
{
    String::from_utf8(bytes).unwrap()
}

impl RluSet {
    pub open spec fn wf(self, g: RluGlobal<RluNode<usize>>) -> bool {
        &&& g.wf()
        &&& g.valid_thread(self.thread_id as int)
        &&& g.valid_obj(self.head.index as int)
        &&& !g.objects@[self.head.index as int].freed
    }

    /// The elements of the set as its thread sees them.
    pub open spec fn elems(self, g: RluGlobal<RluNode<usize>>) -> Seq<usize> {
        elems_from(
            g,
            self.thread_id as int,
            g.threads@[self.thread_id as int].local_clock as int,
            g.view(self.thread_id as int, self.head.index as int).next,
            g.objects@.len(),
        )
    }

    /// The elements that a section of the set's thread opened now would see.
    pub open spec fn snapshot(self, g: RluGlobal<RluNode<usize>>) -> Seq<usize> {
        elems_from(
            g,
            self.thread_id as int,
            g.global_clock as int,
            g.view_at(self.thread_id as int, g.global_clock as int, self.head.index as int).next,
            g.objects@.len(),
        )
    }

    /// The thread may open a reader section.
    pub open spec fn can_read(self, g: RluGlobal<RluNode<usize>>) -> bool {
        &&& !g.in_section(self.thread_id as int)
        &&& !g.threads@[self.thread_id as int].committing
        &&& g.threads@[self.thread_id as int].run_cnt < usize::MAX - 1
    }

    /// The runtime after one reader section of this set's thread that
    /// changed nothing else.
    pub open spec fn read_once(
        self,
        before: RluGlobal<RluNode<usize>>,
        after: RluGlobal<RluNode<usize>>,
    ) -> bool {
        let t = self.thread_id as int;
        &&& after.wf()
        &&& after.objects@ == before.objects@
        &&& after.global_clock == before.global_clock
        &&& after.threads@.len() == before.threads@.len()
        &&& forall|u: int|
            0 <= u < before.threads@.len() && u != t ==> #[trigger] after.threads@[u]
                == before.threads@[u]
        &&& after.threads@[t].local_clock == before.global_clock
        &&& after.threads@[t].run_cnt == before.threads@[t].run_cnt + 2
        &&& !after.in_section(t)
        &&& !after.threads@[t].committing
    }

    /// Creates an empty set on runtime `g`, with a new head node and a new
    /// thread registered for it.
    pub fn new(g: &mut RluGlobal<RluNode<usize>>) -> (s: RluSet)
        requires
            old(g).wf(),
            old(g).threads@.len() < RLU_MAX_THREADS,
            old(g).objects@.len() < usize::MAX,
        ensures
            s.wf(*final(g)),
            s.can_read(*final(g)),
            s.elems(*final(g)) == Seq::<usize>::empty(),
            s.thread_id == old(g).threads@.len(),
            s.head.index == old(g).objects@.len(),
            final(g).threads@.len() == old(g).threads@.len() + 1,
            final(g).objects@.len() == old(g).objects@.len() + 1,
            final(g).objects@[s.head.index as int] == (ObjOriginal {
                copy: None,
                data: RluNode { elem: 0usize, next: None },
                freed: false,
            }),
    {
        let head = g.alloc_object(RluNode { elem: 0, next: None });
        let thread_id = rlu_thread_init(g);
        let s = RluSet { head, thread_id };
        proof {
            assert(g.objects@[head.index as int].copy is None);
        }
        s
    }

    /// Another handle on the same list, for a newly registered thread.
    pub fn clone_ref(&self, g: &mut RluGlobal<RluNode<usize>>) -> (s: RluSet)
        requires
            self.wf(*old(g)),
            old(g).threads@.len() < RLU_MAX_THREADS,
        ensures
            s.wf(*final(g)),
            s.can_read(*final(g)),
            s.head == self.head,
            s.thread_id == old(g).threads@.len(),
            final(g).threads@.len() == old(g).threads@.len() + 1,
            final(g).objects@ == old(g).objects@,
    {
        let thread_id = rlu_thread_init(g);
        RluSet { head: self.head, thread_id }
    }

    /// The elements as the thread sees them inside its current section.
    fn collect(&self, g: &RluGlobal<RluNode<usize>>) -> (r: Vec<usize>)
        requires
            self.wf(*g),
        ensures
            r@ == self.elems(*g),
    {
        let tid = self.thread_id;
        let mut node = rlu_dereference(g, tid, self.head).next;
        let mut fuel = g.objects.len();
        let mut out: Vec<usize> = Vec::new();
        let mut done = false;
        while !done && fuel > 0
            invariant
                self.wf(*g),
                tid == self.thread_id,
                done ==> out@ == self.elems(*g),
                !done ==> out@ + elems_from(*g, tid as int, g.threads@[tid as int].local_clock as int, node, fuel as nat) == self.elems(*g),
            decreases fuel + if done { 0int } else { 1int },
        {
            match node {
                None => {
                    done = true;
                    proof {
                        assert(out@ + Seq::<usize>::empty() =~= out@);
                    }
                },
                Some(n) => {
                    if n.index < g.objects.len() && !g.objects[n.index].freed {
                        let v = rlu_dereference(g, tid, n);
                        proof {
                            assert(out@.push(v.elem) + elems_from(*g, tid as int, g.threads@[tid as int].local_clock as int, v.next, (fuel - 1) as nat)
                                =~= out@ + elems_from(*g, tid as int, g.threads@[tid as int].local_clock as int, node, fuel as nat));
                        }
                        out.push(v.elem);
                        node = v.next;
                        fuel = fuel - 1;
                    } else {
                        done = true;
                        proof {
                            assert(out@ + Seq::<usize>::empty() =~= out@);
                        }
                    }
                },
            }
        }
        proof {
            if !done {
                assert(out@ + Seq::<usize>::empty() =~= out@);
            }
        }
        out
    }

    /// One reader section of the set's thread that reads the whole list.
    fn read_section(&self, g: &mut RluGlobal<RluNode<usize>>) -> (r: Vec<usize>)
        requires
            self.wf(*old(g)),
            self.can_read(*old(g)),
        ensures
            self.read_once(*old(g), *final(g)),
            self.wf(*final(g)),
            self.can_read(*final(g)) || final(g).threads@[self.thread_id as int].run_cnt
                >= usize::MAX - 1,
            r@ == self.elems(*final(g)),
    {
        let tid = self.thread_id;
        rlu_reader_lock(g, tid);
        let ghost mid = *g;
        let ghost lc = mid.threads@[tid as int].local_clock as int;
        let r = self.collect(g);
        let committing = rlu_reader_unlock(g, tid);
        proof {
            assert(!committing);
            assert forall|o: int| #![trigger g.view_at(tid as int, lc, o)] mid.valid_obj(o) implies g.view_at(tid as int, lc, o) == mid.view_at(tid as int, lc, o) by {
                if let Some(c) = mid.objects@[o].copy {
                    if c.thread_id != tid {
                        assert(g.threads@[c.thread_id as int] == mid.threads@[c.thread_id as int]);
                    }
                }
            }
            assert forall|o: int| #![trigger g.objects@[o]] mid.valid_obj(o) implies g.objects@[o].freed == mid.objects@[o].freed by {}
            lemma_elems_same_views(
                mid,
                *g,
                tid as int,
                lc,
                lc,
                mid.view(tid as int, self.head.index as int).next,
                mid.objects@.len(),
            );
        }
        r
    }

    /// One attempt to add `value`, in one section of the set's thread: walks
    /// to the last node below `value`, locks it and links a new node after it.
    pub fn insert(&self, g: &mut RluGlobal<RluNode<usize>>, value: usize) -> (r: InsertStep)
        requires
            self.wf(*old(g)),
            self.can_read(*old(g)),
            old(g).objects@.len() < usize::MAX,
            old(g).global_clock + 1 < WRITE_CLOCK_INFINITY,
        ensures
            final(g).wf(),
            !old(g).queued_for_free(self.thread_id as int, self.head.index as int) ==> self.wf(
                *final(g),
            ),
            final(g).threads@.len() == old(g).threads@.len(),
            final(g).threads@[self.thread_id as int].local_clock == old(g).global_clock,
            !final(g).in_section(self.thread_id as int),
            r == InsertStep::Present ==> self.read_once(*old(g), *final(g)) && self.elems(
                *final(g),
            ).contains(value) && self.snapshot(*old(g)).contains(value),
            r is Unterminated ==> self.snapshot(*old(g)).len() == old(g).objects@.len(),
            r is Linked && strictly_ascending(self.snapshot(*old(g))) ==> !self.snapshot(
                *old(g),
            ).contains(value),
            r == InsertStep::Contended ==> exists|p: int|
                #![trigger old(g).objects@[p]]
                old(g).valid_obj(p) && old(g).objects@[p].copy is Some
                    && old(g).objects@[p].copy->0.thread_id != self.thread_id,
            r == InsertStep::Contended || r == InsertStep::Unterminated ==> {
                &&& !final(g).threads@[self.thread_id as int].committing
                &&& !final(g).threads@[self.thread_id as int].is_writer
                &&& final(g).global_clock == old(g).global_clock
                &&& final(g).objects@.len() == old(g).objects@.len()
                &&& forall|o: int|
                    #![trigger final(g).objects@[o]]
                    old(g).valid_obj(o) ==> final(g).objects@[o] == old(g).objects@[o]
                        && !final(g).locked_by(o, self.thread_id as int)
            },
            (r is Present || r is Contended || r is Unterminated) ==> final(g).objects@.len()
                == old(g).objects@.len(),
            r matches InsertStep::Linked { prev, node, pending } ==> {
                let t = self.thread_id as int;
                let p = prev.index as int;
                let n = node.index as int;
                let orig = old(g).objects@[p].data;
                let linked = RluNode { elem: orig.elem, next: Some(node) };
                &&& final(g).global_clock == old(g).global_clock + 1
                &&& (pending <==> exists|i: int|
                    0 <= i < old(g).threads@.len() && i != t && #[trigger] old(g).in_section(i))
                &&& n == old(g).objects@.len()
                &&& final(g).objects@.len() == old(g).objects@.len() + 1
                &&& final(g).objects@[n].copy is None
                &&& final(g).objects@[n].data == RluNode { elem: value, next: orig.next }
                &&& old(g).valid_obj(p)
                &&& !old(g).objects@[p].freed
                &&& old(g).objects@[p].copy is None
                &&& (prev == self.head || orig.elem < value)
                &&& match orig.next {
                    None => true,
                    Some(s) => !old(g).valid_obj(s.index as int) || old(g).objects@[s.index as int].freed
                        || old(g).view_at(t, old(g).global_clock as int, s.index as int).elem > value,
                }
                &&& final(g).view(t, p) == linked
                &&& pending ==> final(g).threads@[t].committing && final(g).locked_by(p, t)
                &&& !pending ==> {
                    &&& !final(g).threads@[t].committing
                    &&& final(g).objects@[p].copy is None
                    &&& final(g).objects@[p].data == linked
                    &&& forall|o: int|
                        #![trigger final(g).objects@[o]]
                        final(g).valid_obj(o) ==> !final(g).locked_by(o, t)
                }
            },
    {
        let tid = self.thread_id;
        rlu_reader_lock(g, tid);
        let ghost mid = *g;
        let ghost lc = mid.threads@[tid as int].local_clock as int;
        let ghost total = self.elems(mid);
        proof {
            assert forall|o: int| #![trigger mid.objects@[o]] mid.valid_obj(o) implies !mid.locked_by(o, tid as int) by {
                assert(mid.objects_wf());
            }
            let g0 = *old(g);
            assert(g0.thread_wf(tid as int));
            assert forall|o: int| #![trigger mid.view_at(tid as int, lc, o)] g0.valid_obj(o) implies mid.view_at(tid as int, lc, o)
                == g0.view_at(tid as int, lc, o) by {
                assert(mid.objects@[o] == g0.objects@[o]);
                if let Some(c) = g0.objects@[o].copy {
                    assert(g0.objects_wf());
                    assert(c.thread_id != tid);
                    assert(mid.threads@[c.thread_id as int] == g0.threads@[c.thread_id as int]);
                }
            }
            assert(mid.view(tid as int, self.head.index as int) == mid.view_at(tid as int, lc, self.head.index as int));
            lemma_elems_same_views(
                g0,
                mid,
                tid as int,
                lc,
                lc,
                g0.view_at(tid as int, lc, self.head.index as int).next,
                g0.objects@.len(),
            );
            assert(total == self.snapshot(g0));
        }
        let mut prev = self.head;
        let mut prev_node = rlu_dereference(g, tid, prev);
        let mut fuel = g.objects.len();
        let ghost mut walked: Seq<usize> = Seq::empty();
        let mut found = false;
        let mut done = false;
        while !done && fuel > 0
            invariant
                *g == mid,
                self.wf(mid),
                tid == self.thread_id,
                mid.valid_obj(prev.index as int),
                !mid.objects@[prev.index as int].freed,
                prev_node == mid.view(tid as int, prev.index as int),
                prev == self.head || prev_node.elem < value,
                forall|k: int| 0 <= k < walked.len() ==> walked[k] < value,
                done ==> fuel > 0,
                walked.len() + fuel == mid.objects@.len(),
                walked + elems_from(mid, tid as int, mid.threads@[tid as int].local_clock as int, prev_node.next, fuel as nat) == total,
                found ==> done && total.contains(value),
                done && !found ==> match prev_node.next {
                    None => true,
                    Some(s) => !mid.valid_obj(s.index as int) || mid.objects@[s.index as int].freed
                        || mid.view(tid as int, s.index as int).elem > value,
                },
            decreases fuel + if done { 0int } else { 1int },
        {
            match prev_node.next {
                None => {
                    done = true;
                },
                Some(n) => {
                    if n.index < g.objects.len() && !g.objects[n.index].freed {
                        let next_node = rlu_dereference(g, tid, n);
                        if next_node.elem >= value {
                            done = true;
                            if next_node.elem == value {
                                found = true;
                                proof {
                                    assert(total[walked.len() as int] == value);
                                }
                            }
                        } else {
                            proof {
                                assert(walked.push(next_node.elem) + elems_from(mid, tid as int, mid.threads@[tid as int].local_clock as int, next_node.next, (fuel - 1) as nat)
                                    =~= walked + elems_from(mid, tid as int, mid.threads@[tid as int].local_clock as int, prev_node.next, fuel as nat));
                                walked = walked.push(next_node.elem);
                            }
                            prev = n;
                            prev_node = next_node;
                            fuel = fuel - 1;
                        }
                    } else {
                        done = true;
                    }
                },
            }
        }
        if found {
            let committing = rlu_reader_unlock(g, tid);
            proof {
                assert(!committing);
                assert forall|o: int| #![trigger g.view_at(tid as int, lc, o)] mid.valid_obj(o) implies g.view_at(tid as int, lc, o) == mid.view_at(tid as int, lc, o) by {
                    if let Some(c) = mid.objects@[o].copy {
                        if c.thread_id != tid {
                            assert(g.threads@[c.thread_id as int] == mid.threads@[c.thread_id as int]);
                        }
                    }
                }
                assert forall|o: int| #![trigger g.objects@[o]] mid.valid_obj(o) implies g.objects@[o].freed == mid.objects@[o].freed by {}
                lemma_elems_same_views(
                    mid,
                    *g,
                    tid as int,
                    lc,
                    lc,
                    mid.view(tid as int, self.head.index as int).next,
                    mid.objects@.len(),
                );
            }
            return InsertStep::Present;
        }
        if !done {
            proof {
                assert(walked + Seq::<usize>::empty() =~= walked);
            }
            rlu_abort(g, tid);
            return InsertStep::Unterminated;
        }
        proof {
            let rest = elems_from(mid, tid as int, lc, prev_node.next, fuel as nat);
            assert(total.len() == walked.len() + rest.len());
            if strictly_ascending(total) {
                assert forall|j: int| 0 <= j < total.len() implies total[j] != value by {
                    if j < walked.len() {
                        assert(total[j] == (walked + rest)[j]);
                    } else {
                        assert(rest.len() > 0);
                        assert(total[walked.len() as int] == (walked + rest)[walked.len() as int]);
                        assert(total[walked.len() as int] > value);
                        if j > walked.len() {
                            assert(total[walked.len() as int] < total[j]);
                        }
                    }
                }
            }
        }
        match rlu_try_lock(g, tid, prev) {
            None => {
                proof {
                    let p = prev.index as int;
                    assert(mid.objects@[p].copy is Some);
                    assert(old(g).objects@[p] == mid.objects@[p]);
                }
                rlu_abort(g, tid);
                InsertStep::Contended
            },
            Some(cur) => {
                let ghost locked = *g;
                proof {
                    assert(mid.objects@[prev.index as int].copy is None);
                    assert(cur == mid.objects@[prev.index as int].data);
                }
                let node = g.alloc_object(RluNode { elem: value, next: cur.next });
                let ghost allocated = *g;
                proof {
                    assert(allocated.view(tid as int, prev.index as int) == locked.view(tid as int, prev.index as int));
                    assert(allocated.active_log(tid as int) == locked.active_log(tid as int));
                    assert(allocated.objects@[prev.index as int] == locked.objects@[prev.index as int]);
                }
                rlu_write(g, tid, prev, RluNode { elem: cur.elem, next: Some(node) });
                let ghost written = *g;
                let pending = rlu_reader_unlock(g, tid);
                proof {
                    let t = tid as int;
                    let p = prev.index as int;
                    let n = node.index as int;
                    let g0 = *old(g);
                    assert forall|i: int| 0 <= i < g0.threads@.len() && i != t implies #[trigger] written.threads@[i]
                        == g0.threads@[i] by {
                        assert(mid.threads@[i] == g0.threads@[i]);
                        assert(locked.threads@[i] == mid.threads@[i]);
                        assert(allocated.threads@[i] == locked.threads@[i]);
                    }
                    assert forall|i: int| 0 <= i < g0.threads@.len() && i != t implies #[trigger] written.in_section(i)
                        == g0.in_section(i) by {
                        assert(written.threads@[i] == g0.threads@[i]);
                    }
                    assert(written.threads@.len() == g0.threads@.len());
                    if pending {
                        let i = choose|i: int|
                            0 <= i < written.threads@.len() && i != t && #[trigger] written.in_section(i);
                        assert(g0.in_section(i));
                    } else {
                        assert forall|i: int| 0 <= i < g0.threads@.len() && i != t implies !#[trigger] g0.in_section(i) by {
                            assert(written.in_section(i) == g0.in_section(i));
                        }
                    }
                    assert(written.locked_by(p, t));
                    assert(written.view(t, p) == written.copy_of(p).data);
                    assert(!written.locked_by(n, t));
                    if pending {
                        assert(g.active_log(t) == written.active_log(t));
                        assert(g.view(t, p) == written.view(t, p));
                    } else {
                        assert(g.objects@[n] == written.objects@[n]);
                        assert forall|o: int| #![trigger g.objects@[o]] g.valid_obj(o) implies !g.locked_by(o, t) by {
                            if written.objects@[o].copy is Some && !written.locked_by(o, t) {
                                assert(g.objects@[o].copy == written.objects@[o].copy);
                            }
                        }
                    }
                    match cur.next {
                        None => {},
                        Some(sx) => {
                            let si = sx.index as int;
                            if g0.valid_obj(si) && !g0.objects@[si].freed {
                                assert(mid.view(t, si) == mid.view_at(t, lc, si));
                            }
                        },
                    }
                }
                InsertStep::Linked { prev, node, pending }
            },
        }
    }

    /// Whether `value` is in the set, read in one section of its thread.
    pub fn contains(&self, g: &mut RluGlobal<RluNode<usize>>, value: usize) -> (r: bool)
        requires
            self.wf(*old(g)),
            self.can_read(*old(g)),
        ensures
            self.read_once(*old(g), *final(g)),
            r == self.elems(*final(g)).contains(value),
    {
        let items = self.read_section(g);
        let mut found = false;
        let mut i: usize = 0;
        while i < items.len() && !found
            invariant
                0 <= i <= items@.len(),
                found == (exists|j: int| 0 <= j < i && items@[j] == value),
            decreases items@.len() - i,
        {
            if items[i] == value {
                found = true;
            }
            i = i + 1;
        }
        proof {
            if !found {
                assert forall|j: int| 0 <= j < items@.len() implies items@[j] != value by {}
            }
        }
        found
    }

    /// The number of elements, read in one section of its thread.
    pub fn len(&self, g: &mut RluGlobal<RluNode<usize>>) -> (r: usize)
        requires
            self.wf(*old(g)),
            self.can_read(*old(g)),
        ensures
            self.read_once(*old(g), *final(g)),
            r == self.elems(*final(g)).len(),
    {
        let items = self.read_section(g);
        items.len()
    }

    /// The elements in list order, as `{a, b, }`, read in one section of its
    /// thread.
    pub fn to_string(&self, g: &mut RluGlobal<RluNode<usize>>) -> (r: String)
        requires
            self.wf(*old(g)),
            self.can_read(*old(g)),
        ensures
            self.read_once(*old(g), *final(g)),
            r@ == render(self.elems(*final(g))).map_values(|b: u8| b as char),
    {
        let items = self.read_section(g);
        let mut bytes: Vec<u8> = Vec::new();
        bytes.push(123u8);
        let mut i: usize = 0;
        while i < items.len()
            invariant
                0 <= i <= items@.len(),
                bytes@ == seq![123u8] + render_items(items@.take(i as int)),
                is_ascii(bytes@),
            decreases items@.len() - i,
        {
            let ghost prev = bytes@;
            push_decimal(&mut bytes, items[i]);
            bytes.push(44u8);
            bytes.push(32u8);
            proof {
                lemma_decimal_ascii(items@[i as int] as nat);
                assert(items@.take(i + 1).drop_last() =~= items@.take(i as int));
                assert(bytes@ =~= seq![123u8] + render_items(items@.take(i + 1)));
                assert forall|j: int| 0 <= j < bytes@.len() implies #[trigger] bytes@[j] < 128 by {
                    if j >= prev.len() && j < prev.len() + decimal(items@[i as int] as nat).len() {
                        assert(bytes@[j] == decimal(items@[i as int] as nat)[j - prev.len()]);
                    }
                }
            }
            i = i + 1;
        }
        bytes.push(125u8);
        proof {
            assert(items@.take(items@.len() as int) =~= items@);
            assert(bytes@ =~= render(items@));
        }
        ascii_string(bytes)
    }
}

} // verus!
