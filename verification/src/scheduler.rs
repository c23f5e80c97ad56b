//! The state of the fixed-priority scheduler: one ready list for each
//! priority, mirrored in a presence bitmap, the list of exited threads that
//! wait to be reclaimed, the thread that holds the core, and the nesting
//! count of the scheduler lock.
//!
//! A lower priority number runs first. A thread made ready goes to the front
//! of the list of its priority, so a list is walked from the thread made
//! ready last to the one made ready first.

use crate::bitmap::{lemma_scan, lowest, ReadyBitmap, Strategy, FLAT_LIMIT, PRIORITY_LIMIT};
use crate::cpu::Cpu;
use crate::list::{lemma_without, without, Node, NodeArena};
use crate::machine::MachineCall;
use crate::thread::{Thread, ThreadState};
use vstd::prelude::*;

verus! {

/// The scheduler state.
pub struct Scheduler {
    lock_nest: u16,
    current_priority: u8,
    current_thread: Option<usize>,
    priority_max: usize,
    bitmap: ReadyBitmap,
    nodes: NodeArena,
    threads: Vec<Thread>,
}

/// Marks a stretch of code during which the scheduler must not switch
/// threads of its own accord. It counts nesting and masks no interrupt.
#[derive(Debug)]
#[must_use]
pub struct LockNestedGuard(());

/// The bit of `priority` in the group word of a bitmap laid out by
/// `strategy`.
pub open spec fn group_mask(strategy: Strategy, priority: u8) -> u32 {
    match strategy {
        Strategy::Flat => 1u32 << (priority as u32),
        Strategy::TwoLevel => 1u32 << ((priority / 8) as u32),
    }
}

/// The layout that goes with `priority_max` priorities.
pub open spec fn strategy_for(priority_max: usize) -> Strategy {
    if priority_max > FLAT_LIMIT {
        Strategy::TwoLevel
    } else {
        Strategy::Flat
    }
}

spec fn member_ok(pm: usize, threads: Seq<Thread>, p: usize, h: usize) -> bool {
    &&& pm + 1 <= h
    &&& p < pm ==> threads[h - pm - 1].current_priority == p
}

spec fn head_ok(pm: usize, nodes: NodeArena, threads: Seq<Thread>, p: usize) -> bool {
    forall|i: int|
        0 <= i < nodes.ring(p).len() ==> member_ok(pm, threads, p, #[trigger] nodes.ring(p)[i])
}

spec fn thread_ok(pm: usize, strategy: Strategy, threads: Seq<Thread>, t: int) -> bool {
    let th = threads[t];
    &&& th.list == pm + 1 + t
    &&& th.current_priority < pm
    &&& th.number_mask == group_mask(strategy, th.current_priority)
}

spec fn fits(
    pm: usize,
    bitmap: ReadyBitmap,
    nodes: NodeArena,
    threads: Seq<Thread>,
    current: Option<usize>,
) -> bool {
    &&& 0 < pm <= PRIORITY_LIMIT
    &&& nodes.wf()
    &&& nodes.spec_len() == pm + 1 + threads.len()
    &&& bitmap.wf()
    &&& bitmap@.len() == pm
    &&& bitmap.spec_strategy() == strategy_for(pm)
    &&& forall|p: usize| p < pm ==> bitmap@[p as int] == (#[trigger] nodes.ring(p).len() > 0)
    &&& forall|p: usize| p <= pm ==> #[trigger] head_ok(pm, nodes, threads, p)
    &&& forall|t: int|
        0 <= t < threads.len() ==> #[trigger] thread_ok(pm, strategy_for(pm), threads, t)
    &&& forall|t: int|
        0 <= t < threads.len() ==> #[trigger] placed(pm, nodes, (pm + 1 + t) as usize)
    &&& current matches Some(h) ==> pm + 1 <= h < nodes.spec_len()
}

/// The thread node `h` is on the list of the head `p`.
spec fn on_list(nodes: NodeArena, p: usize, h: usize) -> bool {
    nodes.ring(p).contains(h)
}

/// The thread node `h` is alone or on the list of a head.
spec fn placed(pm: usize, nodes: NodeArena, h: usize) -> bool {
    nodes.detached(h) || exists|p: usize| p <= pm && #[trigger] on_list(nodes, p, h)
}

/// Sets the scheduler up for `priority_max` priorities: priority zero, no
/// current thread, no lock held, every presence bit clear, every ready list
/// and the list of exited threads empty, no thread known. The bitmap has one
/// word up to 32 priorities and two levels above.
pub fn init(priority_max: usize) -> (sched: Scheduler)
    requires
        0 < priority_max <= PRIORITY_LIMIT,
    ensures
        sched.wf(),
        sched.priority_max() == priority_max,
        sched.strategy() == strategy_for(priority_max),
        sched.lock_nest() == 0,
        sched.current_priority() == 0,
        sched.current_thread() is None,
        sched.presence() == Seq::new(priority_max as nat, |i: int| false),
        forall|p: usize| p < priority_max ==> #[trigger] sched.ready(p).len() == 0,
        sched.defunct().len() == 0,
        sched.next_handle() == priority_max + 1,
        forall|h: usize| !sched.is_thread(h),
{
    let mut nodes = NodeArena::new();
    let mut p: usize = 0;
    while p <= priority_max
        invariant
            p <= priority_max + 1,
            priority_max <= PRIORITY_LIMIT,
            nodes.wf(),
            nodes.spec_len() == p,
            forall|q: usize| q < p ==> #[trigger] nodes.detached(q),
        decreases priority_max + 1 - p,
    {
        let ghost links = nodes;
        let _ = Node::init(&mut nodes);
        proof {
            assert forall|q: usize| q < p + 1 implies #[trigger] nodes.detached(q) by {
                if q < p {
                    assert(links.detached(q));
                }
            }
        }
        p += 1;
    }
    let bitmap = ReadyBitmap::new(priority_max, Strategy::for_priority_max(priority_max));
    let sched = Scheduler {
        lock_nest: 0,
        current_priority: 0,
        current_thread: None,
        priority_max,
        bitmap,
        nodes,
        threads: Vec::new(),
    };
    proof {
        assert forall|q: usize| q <= priority_max implies #[trigger] head_ok(
            priority_max,
            sched.nodes,
            sched.threads@,
            q,
        ) by {
            assert(sched.nodes.detached(q));
        }
        assert forall|q: usize| q < priority_max implies sched.bitmap@[q as int] == (
        #[trigger] sched.nodes.ring(q).len() > 0) by {
            assert(sched.nodes.detached(q));
        }
        assert forall|q: usize| q < priority_max implies #[trigger] sched.ready(q).len() == 0 by {
            assert(sched.nodes.detached(q));
        }
        assert(sched.nodes.detached(priority_max));
    }
    sched
}

impl LockNestedGuard {
    /// Takes the scheduler lock once more.
    pub fn new(sched: &mut Scheduler) -> (guard: Self)
        requires
            old(sched).lock_nest() < u16::MAX,
        ensures
            *final(sched) == old(sched).with_lock((old(sched).lock_nest() + 1) as u16),
            final(sched).lock_nest() == old(sched).lock_nest() + 1,
            final(sched).wf() == old(sched).wf(),
            final(sched).same_core(old(sched)),
            final(sched).same_lists(old(sched)),
            final(sched).same_threads(old(sched)),
            final(sched).presence() == old(sched).presence(),
    {
        proof {
            sched.lemma_with_lock((sched.lock_nest() + 1) as u16);
        }
        sched.lock_nest += 1;
        LockNestedGuard(())
    }

    /// Gives the scheduler lock back once.
    pub fn release(self, sched: &mut Scheduler)
        requires
            old(sched).lock_nest() > 0,
        ensures
            *final(sched) == old(sched).with_lock((old(sched).lock_nest() - 1) as u16),
            final(sched).lock_nest() == old(sched).lock_nest() - 1,
            final(sched).wf() == old(sched).wf(),
            final(sched).same_core(old(sched)),
            final(sched).same_lists(old(sched)),
            final(sched).same_threads(old(sched)),
            final(sched).presence() == old(sched).presence(),
    {
        proof {
            sched.lemma_with_lock((sched.lock_nest() - 1) as u16);
        }
        sched.lock_nest -= 1;
    }
}

impl Scheduler {
    /// Nesting depth of the scheduler lock.
    pub fn lock_depth(&self) -> (n: u16)
        ensures
            n == self.lock_nest(),
    {
        self.lock_nest
    }

    /// Number of priorities.
    pub fn priorities(&self) -> (n: usize)
        ensures
            n == self.priority_max(),
    {
        self.priority_max
    }

    /// The thread that holds the core.
    pub fn current(&self) -> (t: Option<usize>)
        ensures
            t == self.current_thread(),
    {
        self.current_thread
    }

    /// Whether `handle` names a thread of this scheduler.
    pub fn knows(&self, handle: usize) -> (known: bool)
        requires
            self.wf(),
        ensures
            known == self.is_thread(handle),
    {
        handle > self.priority_max && handle - self.priority_max <= self.threads.len()
    }

    /// The descriptor of the thread `handle`.
    pub fn descriptor(&self, handle: usize) -> (thread: Thread)
        requires
            self.wf(),
            self.is_thread(handle),
        ensures
            thread == self.thread(handle),
    {
        self.threads[handle - self.priority_max - 1]
    }

    /// Whether the thread `handle` is on no scheduling list.
    pub fn is_idle(&self, handle: usize) -> (idle: bool)
        requires
            self.wf(),
            self.is_thread(handle),
        ensures
            idle == self.idle(handle),
    {
        self.nodes.is_detached(handle)
    }

    /// The threads ready at `priority`, the one made ready last first.
    pub fn ready_list(&self, priority: usize) -> (threads: Vec<usize>)
        requires
            self.wf(),
            priority < self.priority_max(),
        ensures
            threads@ == self.ready(priority),
    {
        self.nodes.forward(priority)
    }

    /// The exited threads that wait to be reclaimed, the last one first.
    pub fn defunct_list(&self) -> (threads: Vec<usize>)
        requires
            self.wf(),
        ensures
            threads@ == self.defunct(),
    {
        self.nodes.forward(self.priority_max)
    }

    /// Whether the presence bit of `priority` is set.
    pub fn is_present(&self, priority: usize) -> (on: bool)
        requires
            self.wf(),
            priority < self.priority_max(),
        ensures
            on == self.presence()[priority as int],
            on == (self.ready(priority).len() > 0),
    {
        self.bitmap.get(priority)
    }

    /// Takes `thread` in: gives it a handle, which it also writes to the
    /// descriptor's `list`, and the group bit of its priority. The thread is
    /// on no list. Nothing else changes.
    #[verifier::rlimit(40)]
    pub fn adopt(&mut self, thread: Thread) -> (handle: usize)
        requires
            old(self).wf(),
            thread.current_priority < old(self).priority_max(),
        ensures
            final(self).wf(),
            handle == old(self).next_handle(),
            !old(self).is_thread(handle),
            final(self).is_thread(handle),
            final(self).idle(handle),
            final(self).thread(handle) == (Thread {
                list: handle,
                number_mask: group_mask(old(self).strategy(), thread.current_priority),
                ..thread
            }),
            final(self).next_handle() == old(self).next_handle() + 1,
            forall|h: usize| final(self).is_thread(h) <==> old(self).is_thread(h) || h == handle,
            forall|h: usize|
                old(self).is_thread(h) ==> #[trigger] final(self).thread(h) == old(self).thread(h),
            forall|h: usize|
                old(self).is_thread(h) ==> (#[trigger] final(self).idle(h) <==> old(self).idle(h)),
            final(self).same_core(old(self)),
            final(self).same_lists(old(self)),
            final(self).lock_nest() == old(self).lock_nest(),
            final(self).presence() == old(self).presence(),
    {
        let priority = thread.current_priority;
        let number_mask = match self.bitmap.strategy() {
            Strategy::Flat => 1u32 << (priority as u32),
            Strategy::TwoLevel => 1u32 << ((priority / 8) as u32),
        };
        let handle = Node::init(&mut self.nodes);
        let mut stored = thread;
        stored.list = handle;
        stored.number_mask = number_mask;
        self.threads.push(stored);
        proof {
            let pm = self.priority_max;
            assert forall|p: usize| p <= pm implies #[trigger] head_ok(
                pm,
                self.nodes,
                self.threads@,
                p,
            ) by {
                assert(head_ok(pm, old(self).nodes, old(self).threads@, p));
                assert(self.nodes.ring(p) == old(self).nodes.ring(p));
                old(self).nodes.lemma_ring_shape(p);
                assert forall|i: int| 0 <= i < self.nodes.ring(p).len() implies member_ok(
                    pm,
                    self.threads@,
                    p,
                    #[trigger] self.nodes.ring(p)[i],
                ) by {
                    assert(member_ok(pm, old(self).threads@, p, old(self).nodes.ring(p)[i]));
                }
            }
            assert forall|p: usize| p < pm implies self.bitmap@[p as int] == (
            #[trigger] self.nodes.ring(p).len() > 0) by {
                assert(self.nodes.ring(p) == old(self).nodes.ring(p));
            }
            assert forall|t: int| 0 <= t < self.threads@.len() implies #[trigger] thread_ok(
                pm,
                strategy_for(pm),
                self.threads@,
                t,
            ) by {
                if t < old(self).threads@.len() {
                    assert(thread_ok(pm, strategy_for(pm), old(self).threads@, t));
                }
            }
            assert forall|t: int| 0 <= t < self.threads@.len() implies #[trigger] placed(
                pm,
                self.nodes,
                (pm + 1 + t) as usize,
            ) by {
                let h = (pm + 1 + t) as usize;
                if t < old(self).threads@.len() {
                    assert(placed(pm, old(self).nodes, h));
                    assert(self.nodes.ring(h) == old(self).nodes.ring(h));
                    if !old(self).nodes.detached(h) {
                        let p = choose|p: usize|
                            p <= pm && #[trigger] on_list(old(self).nodes, p, h);
                        assert(self.nodes.ring(p) == old(self).nodes.ring(p));
                        assert(on_list(self.nodes, p, h));
                    }
                }
            }
            assert(self.nodes.ring(pm) == old(self).nodes.ring(pm));
            assert forall|p: usize| p < pm implies #[trigger] self.ready(p) == old(self).ready(
                p,
            ) by {
                assert(self.nodes.ring(p) == old(self).nodes.ring(p));
            }
            assert forall|h: usize| old(self).is_thread(h) implies (#[trigger] self.idle(h)
                <==> old(self).idle(h)) by {
                assert(self.nodes.ring(h) == old(self).nodes.ring(h));
            }
        }
        handle
    }

    /// The highest priority that has a thread ready, that is, the lowest
    /// index whose ready list is not empty.
    pub fn highest_ready_priority(&self) -> (found: Option<usize>)
        requires
            self.wf(),
        ensures
            match found {
                Some(p) => {
                    &&& p < self.priority_max()
                    &&& self.ready(p).len() > 0
                    &&& forall|q: usize| q < p ==> #[trigger] self.ready(q).len() == 0
                    &&& lowest(self.presence()) == Some(p as int)
                },
                None => {
                    &&& !self.has_ready()
                    &&& lowest(self.presence()) is None
                },
            },
    {
        let found = self.bitmap.lowest_set();
        proof {
            lemma_scan(self.bitmap@, 0);
            match found {
                Some(p) => {
                    assert(self.bitmap@[p as int]);
                    assert(self.nodes.ring(p).len() > 0);
                    assert forall|q: usize| q < p implies #[trigger] self.ready(q).len() == 0 by {
                        assert(!self.bitmap@[q as int]);
                        assert(!(self.nodes.ring(q).len() > 0));
                    }
                },
                None => {
                    assert forall|q: usize| q < self.priority_max implies !(
                    #[trigger] self.ready(q).len() > 0) by {
                        assert(!self.bitmap@[q as int]);
                        assert(!(self.nodes.ring(q).len() > 0));
                    }
                },
            }
        }
        found
    }
}

impl Scheduler {
    /// Makes the thread `handle`, which is on no list, ready: puts it at
    /// the front of the ready list of its priority, sets the presence bit of
    /// that priority and marks the thread ready. Interrupts must be off.
    #[verifier::rlimit(40)]
    pub fn insert_thread(&mut self, cpu: &Cpu, handle: usize)
        requires
            cpu.exclusive(),
            old(self).wf(),
            old(self).is_thread(handle),
            old(self).idle(handle),
        ensures
            final(self).wf(),
            final(self).same_core(old(self)),
            final(self).lock_nest() == old(self).lock_nest(),
            final(self).same_threads_but(old(self), handle),
            final(self).thread(handle) == (Thread {
                stat: ThreadState::Ready,
                ..old(self).thread(handle)
            }),
            !final(self).idle(handle),
            final(self).ready(old(self).thread(handle).current_priority as usize) == old(
                self,
            ).ready(old(self).thread(handle).current_priority as usize).insert(0, handle),
            forall|p: usize|
                p < old(self).priority_max() && p != old(self).thread(handle).current_priority
                    ==> #[trigger] final(self).ready(p) == old(self).ready(p),
            final(self).defunct() == old(self).defunct(),
            final(self).presence() == old(self).presence().update(
                old(self).thread(handle).current_priority as int,
                true,
            ),
    {
        let t = handle - self.priority_max - 1;
        let priority = self.threads[t].current_priority as usize;
        proof {
            let pm = self.priority_max;
            assert(thread_ok(pm, strategy_for(pm), self.threads@, t as int));
            self.nodes.lemma_len_fits();
        }
        self.threads[t].stat = ThreadState::Ready;
        Node::insert(&mut self.nodes, priority, handle);
        self.bitmap.set(priority);
        proof {
            let pm = self.priority_max;
            assert forall|p: usize| p <= pm && p != priority implies self.nodes.ring(p) == old(
                self,
            ).nodes.ring(p) by {
                assert(head_ok(pm, old(self).nodes, old(self).threads@, p));
                if old(self).nodes.ring(p).contains(priority) {
                    let i = choose|i: int|
                        0 <= i < old(self).nodes.ring(p).len() && old(self).nodes.ring(p)[i]
                            == priority;
                    assert(member_ok(pm, old(self).threads@, p, old(self).nodes.ring(p)[i]));
                }
            }
            assert forall|p: usize| p <= pm implies #[trigger] head_ok(
                pm,
                self.nodes,
                self.threads@,
                p,
            ) by {
                assert(head_ok(pm, old(self).nodes, old(self).threads@, p));
                old(self).nodes.lemma_ring_shape(p);
                let before = old(self).nodes.ring(p);
                assert forall|i: int| 0 <= i < self.nodes.ring(p).len() implies member_ok(
                    pm,
                    self.threads@,
                    p,
                    #[trigger] self.nodes.ring(p)[i],
                ) by {
                    if p == priority {
                        if i > 0 {
                            assert(self.nodes.ring(p)[i] == before[i - 1]);
                            assert(member_ok(pm, old(self).threads@, p, before[i - 1]));
                        }
                    } else {
                        assert(member_ok(pm, old(self).threads@, p, before[i]));
                    }
                }
            }
            assert forall|p: usize| p < pm implies self.bitmap@[p as int] == (
            #[trigger] self.nodes.ring(p).len() > 0) by {
                if p != priority {
                    assert(old(self).bitmap@[p as int] == (old(self).nodes.ring(p).len() > 0));
                }
            }
            assert forall|k: int| 0 <= k < self.threads@.len() implies #[trigger] thread_ok(
                pm,
                strategy_for(pm),
                self.threads@,
                k,
            ) by {
                assert(thread_ok(pm, strategy_for(pm), old(self).threads@, k));
            }
            assert forall|k: int| 0 <= k < self.threads@.len() implies #[trigger] placed(
                pm,
                self.nodes,
                (pm + 1 + k) as usize,
            ) by {
                let h = (pm + 1 + k) as usize;
                assert(placed(pm, old(self).nodes, h));
                if h == handle {
                    assert(self.nodes.ring(priority)[0] == handle);
                    assert(on_list(self.nodes, priority, h));
                    self.nodes.lemma_member_linked(priority, handle);
                } else if !old(self).nodes.detached(h) {
                    let p = choose|p: usize| p <= pm && #[trigger] on_list(old(self).nodes, p, h);
                    let before = old(self).nodes.ring(p);
                    let i = choose|i: int| 0 <= i < before.len() && before[i] == h;
                    if p == priority {
                        assert(self.nodes.ring(p)[i + 1] == h);
                    }
                    assert(on_list(self.nodes, p, h));
                }
            }
        }
    }

    /// Takes the thread `handle` off the scheduling list that holds it, if
    /// one does, and clears the presence bit of its priority if the ready
    /// list of that priority is empty afterwards. Interrupts must be off.
    #[verifier::rlimit(40)]
    pub fn remove_thread(&mut self, cpu: &Cpu, handle: usize)
        requires
            cpu.exclusive(),
            old(self).wf(),
            old(self).is_thread(handle),
        ensures
            final(self).wf(),
            final(self).same_core(old(self)),
            final(self).lock_nest() == old(self).lock_nest(),
            final(self).same_threads_but(old(self), handle),
            final(self).thread(handle) == old(self).thread(handle),
            final(self).idle(handle),
            forall|p: usize|
                p < old(self).priority_max() ==> #[trigger] final(self).ready(p) == without(
                    old(self).ready(p),
                    handle,
                ),
            final(self).defunct() == without(old(self).defunct(), handle),
    {
        let t = handle - self.priority_max - 1;
        let priority = self.threads[t].current_priority as usize;
        proof {
            let pm = self.priority_max;
            assert(thread_ok(pm, strategy_for(pm), self.threads@, t as int));
            self.nodes.lemma_len_fits();
        }
        Node::remove(&mut self.nodes, handle);
        if self.nodes.is_detached(priority) {
            self.bitmap.clear(priority);
        }
        proof {
            let pm = self.priority_max;
            assert forall|p: usize| p <= pm implies #[trigger] head_ok(
                pm,
                self.nodes,
                self.threads@,
                p,
            ) by {
                assert(head_ok(pm, old(self).nodes, old(self).threads@, p));
                let before = old(self).nodes.ring(p);
                old(self).nodes.lemma_ring_shape(p);
                lemma_without(before, handle);
                assert forall|i: int| 0 <= i < self.nodes.ring(p).len() implies member_ok(
                    pm,
                    self.threads@,
                    p,
                    #[trigger] self.nodes.ring(p)[i],
                ) by {
                    let h = self.nodes.ring(p)[i];
                    assert(before.contains(h));
                    let i0 = choose|i0: int| 0 <= i0 < before.len() && before[i0] == h;
                    assert(member_ok(pm, old(self).threads@, p, before[i0]));
                }
            }
            assert forall|p: usize| p < pm implies self.bitmap@[p as int] == (
            #[trigger] self.nodes.ring(p).len() > 0) by {
                let before = old(self).nodes.ring(p);
                old(self).nodes.lemma_ring_shape(p);
                lemma_without(before, handle);
                assert(old(self).bitmap@[p as int] == (before.len() > 0));
                assert(head_ok(pm, old(self).nodes, old(self).threads@, p));
                if p != priority {
                    if before.contains(handle) {
                        let i = choose|i: int| 0 <= i < before.len() && before[i] == handle;
                        assert(member_ok(pm, old(self).threads@, p, before[i]));
                    }
                }
            }
            assert forall|k: int| 0 <= k < self.threads@.len() implies #[trigger] placed(
                pm,
                self.nodes,
                (pm + 1 + k) as usize,
            ) by {
                let h = (pm + 1 + k) as usize;
                assert(placed(pm, old(self).nodes, h));
                if h != handle && !old(self).nodes.detached(h) {
                    let p = choose|p: usize| p <= pm && #[trigger] on_list(old(self).nodes, p, h);
                    old(self).nodes.lemma_ring_shape(p);
                    lemma_without(old(self).nodes.ring(p), handle);
                    assert(on_list(self.nodes, p, h));
                }
            }
            assert forall|h: usize| old(self).is_thread(h) && h != handle implies (
            #[trigger] self.idle(h) <==> old(self).idle(h)) by {
                old(self).nodes.lemma_ring_shape(h);
                lemma_without(old(self).nodes.ring(h), handle);
                let k = h - pm - 1;
                assert(placed(pm, old(self).nodes, (pm + 1 + k) as usize));
                if !old(self).nodes.detached(h) {
                    let p = choose|p: usize| p <= pm && #[trigger] on_list(old(self).nodes, p, h);
                    old(self).nodes.lemma_ring_shape(p);
                    lemma_without(old(self).nodes.ring(p), handle);
                    assert(self.nodes.ring(p).contains(h));
                    self.nodes.lemma_member_linked(p, h);
                }
            }
        }
    }
}

impl Scheduler {
    /// Puts the thread `handle`, which is on no list, at the front of the
    /// list of exited threads. Interrupts must be off.
    #[verifier::rlimit(40)]
    pub fn retire(&mut self, cpu: &Cpu, handle: usize)
        requires
            cpu.exclusive(),
            old(self).wf(),
            old(self).is_thread(handle),
            old(self).idle(handle),
        ensures
            final(self).wf(),
            final(self).same_core(old(self)),
            final(self).lock_nest() == old(self).lock_nest(),
            final(self).same_threads_but(old(self), handle),
            final(self).thread(handle) == old(self).thread(handle),
            !final(self).idle(handle),
            final(self).defunct() == old(self).defunct().insert(0, handle),
            forall|p: usize|
                p < old(self).priority_max() ==> #[trigger] final(self).ready(p) == old(self).ready(
                    p,
                ),
            final(self).presence() == old(self).presence(),
    {
        let head = self.priority_max;
        proof {
            self.nodes.lemma_len_fits();
        }
        Node::insert(&mut self.nodes, head, handle);
        proof {
            let pm = self.priority_max;
            assert forall|p: usize| p <= pm && p != head implies self.nodes.ring(p) == old(
                self,
            ).nodes.ring(p) by {
                assert(head_ok(pm, old(self).nodes, old(self).threads@, p));
                if old(self).nodes.ring(p).contains(head) {
                    let i = choose|i: int|
                        0 <= i < old(self).nodes.ring(p).len() && old(self).nodes.ring(p)[i]
                            == head;
                    assert(member_ok(pm, old(self).threads@, p, old(self).nodes.ring(p)[i]));
                }
            }
            assert forall|p: usize| p <= pm implies #[trigger] head_ok(
                pm,
                self.nodes,
                self.threads@,
                p,
            ) by {
                assert(head_ok(pm, old(self).nodes, old(self).threads@, p));
                let before = old(self).nodes.ring(p);
                assert forall|i: int| 0 <= i < self.nodes.ring(p).len() implies member_ok(
                    pm,
                    self.threads@,
                    p,
                    #[trigger] self.nodes.ring(p)[i],
                ) by {
                    if p == head {
                        if i > 0 {
                            assert(self.nodes.ring(p)[i] == before[i - 1]);
                            assert(member_ok(pm, old(self).threads@, p, before[i - 1]));
                        }
                    } else {
                        assert(member_ok(pm, old(self).threads@, p, before[i]));
                    }
                }
            }
            assert forall|p: usize| p < pm implies self.bitmap@[p as int] == (
            #[trigger] self.nodes.ring(p).len() > 0) by {
                assert(old(self).bitmap@[p as int] == (old(self).nodes.ring(p).len() > 0));
            }
            assert forall|k: int| 0 <= k < self.threads@.len() implies #[trigger] placed(
                pm,
                self.nodes,
                (pm + 1 + k) as usize,
            ) by {
                let h = (pm + 1 + k) as usize;
                assert(placed(pm, old(self).nodes, h));
                if h == handle {
                    assert(self.nodes.ring(head)[0] == handle);
                    assert(on_list(self.nodes, head, h));
                    self.nodes.lemma_member_linked(head, handle);
                } else if !old(self).nodes.detached(h) {
                    let p = choose|p: usize| p <= pm && #[trigger] on_list(old(self).nodes, p, h);
                    let before = old(self).nodes.ring(p);
                    let i = choose|i: int| 0 <= i < before.len() && before[i] == h;
                    if p == head {
                        assert(self.nodes.ring(p)[i + 1] == h);
                    }
                    assert(on_list(self.nodes, p, h));
                }
            }
        }
    }

    /// Writes the run state of the thread `handle`.
    pub fn set_state(&mut self, handle: usize, stat: ThreadState)
        requires
            old(self).wf(),
            old(self).is_thread(handle),
        ensures
            final(self).wf(),
            final(self).same_core(old(self)),
            final(self).same_lists(old(self)),
            final(self).lock_nest() == old(self).lock_nest(),
            final(self).presence() == old(self).presence(),
            final(self).same_threads_but(old(self), handle),
            final(self).idle(handle) == old(self).idle(handle),
            final(self).thread(handle) == (Thread { stat, ..old(self).thread(handle) }),
    {
        let t = handle - self.priority_max - 1;
        self.threads[t].stat = stat;
        proof {
            self.lemma_same_links(old(self), t as int);
        }
    }

    /// Writes the exit routine of the thread `handle`.
    pub fn set_cleanup(&mut self, handle: usize, cleanup: Option<usize>)
        requires
            old(self).wf(),
            old(self).is_thread(handle),
        ensures
            final(self).wf(),
            final(self).same_core(old(self)),
            final(self).same_lists(old(self)),
            final(self).lock_nest() == old(self).lock_nest(),
            final(self).presence() == old(self).presence(),
            final(self).same_threads_but(old(self), handle),
            final(self).idle(handle) == old(self).idle(handle),
            final(self).thread(handle) == (Thread { cleanup, ..old(self).thread(handle) }),
    {
        let t = handle - self.priority_max - 1;
        self.threads[t].cleanup = cleanup;
        proof {
            self.lemma_same_links(old(self), t as int);
        }
    }

    /// A scheduler that differs from a well-formed one only in fields of
    /// one descriptor that no list depends on is well-formed.
    proof fn lemma_same_links(&self, before: &Scheduler, t: int)
        requires
            before.wf(),
            0 <= t < before.threads@.len(),
            self.priority_max == before.priority_max,
            self.bitmap == before.bitmap,
            self.nodes == before.nodes,
            self.current_thread == before.current_thread,
            self.threads@.len() == before.threads@.len(),
            forall|k: int|
                0 <= k < before.threads@.len() && k != t ==> self.threads@[k] == before.threads@[k],
            self.threads@[t].list == before.threads@[t].list,
            self.threads@[t].current_priority == before.threads@[t].current_priority,
            self.threads@[t].number_mask == before.threads@[t].number_mask,
        ensures
            self.wf(),
    {
        let pm = self.priority_max;
        assert forall|p: usize| p <= pm implies #[trigger] head_ok(
            pm,
            self.nodes,
            self.threads@,
            p,
        ) by {
            assert(head_ok(pm, before.nodes, before.threads@, p));
            before.nodes.lemma_ring_shape(p);
            assert forall|i: int| 0 <= i < self.nodes.ring(p).len() implies member_ok(
                pm,
                self.threads@,
                p,
                #[trigger] self.nodes.ring(p)[i],
            ) by {
                assert(member_ok(pm, before.threads@, p, before.nodes.ring(p)[i]));
            }
        }
        assert forall|k: int| 0 <= k < self.threads@.len() implies #[trigger] thread_ok(
            pm,
            strategy_for(pm),
            self.threads@,
            k,
        ) by {
            assert(thread_ok(pm, strategy_for(pm), before.threads@, k));
        }
        assert forall|k: int| 0 <= k < self.threads@.len() implies #[trigger] placed(
            pm,
            self.nodes,
            (pm + 1 + k) as usize,
        ) by {
            assert(placed(pm, before.nodes, (pm + 1 + k) as usize));
        }
    }
}

/// Starts scheduling: installs the thread at the front of the ready list of
/// the highest priority that has a thread ready as the current thread, and
/// asks the machine layer to switch to it, under the mask `cpu`. Returns its
/// handle. Nothing else changes.
/// With no thread ready there is nothing to start.
pub fn start<F: Fn(Cpu, MachineCall)>(sched: &mut Scheduler, cpu: &Cpu, machine: &F) -> (to_thread:
    usize)
    requires
        old(sched).wf(),
        old(sched).has_ready(),
        forall|call: MachineCall| call_requires(*machine, (*cpu, call)),
    ensures
        final(sched).wf(),
        old(sched).front() == Some(to_thread),
        final(sched).is_thread(to_thread),
        *final(sched) == old(sched).with_current(Some(to_thread)),
        final(sched).current_thread() == Some(to_thread),
        final(sched).current_priority() == old(sched).current_priority(),
        final(sched).priority_max() == old(sched).priority_max(),
        final(sched).strategy() == old(sched).strategy(),
        final(sched).lock_nest() == old(sched).lock_nest(),
        final(sched).presence() == old(sched).presence(),
        final(sched).same_lists(old(sched)),
        final(sched).same_threads(old(sched)),
        call_ensures(
            *machine,
            (*cpu, MachineCall::SwitchTo { thread: to_thread, sp: old(sched).thread(to_thread).sp }),
            (),
        ),
{
    let to_thread = sched.next_thread().unwrap();
    proof {
        sched.lemma_with_current(Some(to_thread));
    }
    sched.set_current(Some(to_thread));
    let sp = sched.descriptor(to_thread).sp;
    machine(*cpu, MachineCall::SwitchTo { thread: to_thread, sp });
    to_thread
}

impl Scheduler {
    /// The thread that would run next: the one at the front of the ready
    /// list of the highest priority that has a thread ready.
    pub open spec fn front(&self) -> Option<usize> {
        match lowest(self.presence()) {
            Some(p) => Some(self.ready(p as usize)[0]),
            None => None,
        }
    }

    /// The scheduler with `thread` as its current thread and nothing else
    /// changed.
    pub closed spec fn with_current(&self, thread: Option<usize>) -> Scheduler {
        Scheduler { current_thread: thread, ..*self }
    }

    /// Changing the current thread touches nothing but the current thread.
    pub proof fn lemma_with_current(&self, thread: Option<usize>)
        ensures
            self.with_current(self.current_thread()) == *self,
            self.with_current(thread).current_thread() == thread,
            self.with_current(thread).current_priority() == self.current_priority(),
            self.with_current(thread).priority_max() == self.priority_max(),
            self.with_current(thread).strategy() == self.strategy(),
            self.with_current(thread).lock_nest() == self.lock_nest(),
            self.with_current(thread).presence() == self.presence(),
            self.with_current(thread).same_lists(self),
            self.with_current(thread).same_threads(self),
            self.wf() && (thread matches Some(h) ==> self.is_thread(h)) ==> self.with_current(
                thread,
            ).wf(),
    {
    }

    /// The thread that would run next, if any is ready.
    pub fn next_thread(&self) -> (next: Option<usize>)
        requires
            self.wf(),
        ensures
            next == self.front(),
            next is Some <==> self.has_ready(),
            next matches Some(h) ==> self.is_thread(h),
    {
        match self.highest_ready_priority() {
            Some(p) => {
                let head = self.nodes.next(p);
                proof {
                    let pm = self.priority_max;
                    assert(head_ok(pm, self.nodes, self.threads@, p));
                    assert(member_ok(pm, self.threads@, p, self.nodes.ring(p)[0]));
                    self.nodes.lemma_ring_shape(p);
                }
                Some(head)
            },
            None => None,
        }
    }

    /// Installs `thread` as the current thread.
    pub fn set_current(&mut self, thread: Option<usize>)
        requires
            old(self).wf(),
            thread matches Some(h) ==> old(self).is_thread(h),
        ensures
            final(self).wf(),
            *final(self) == old(self).with_current(thread),
            final(self).current_thread() == thread,
            final(self).current_priority() == old(self).current_priority(),
            final(self).priority_max() == old(self).priority_max(),
            final(self).strategy() == old(self).strategy(),
            final(self).lock_nest() == old(self).lock_nest(),
            final(self).presence() == old(self).presence(),
            final(self).same_lists(old(self)),
            final(self).same_threads(old(self)),
    {
        proof {
            self.lemma_with_current(thread);
        }
        self.current_thread = thread;
    }
}

impl Scheduler {
    /// Number of priorities.
    pub closed spec fn priority_max(&self) -> usize {
        self.priority_max
    }

    /// Nesting depth of the scheduler lock.
    pub closed spec fn lock_nest(&self) -> u16 {
        self.lock_nest
    }

    /// Priority of the thread that holds the core.
    pub closed spec fn current_priority(&self) -> u8 {
        self.current_priority
    }

    /// The thread that holds the core; none before the first switch.
    pub closed spec fn current_thread(&self) -> Option<usize> {
        self.current_thread
    }

    /// The layout of the presence bitmap.
    pub closed spec fn strategy(&self) -> Strategy {
        self.bitmap.spec_strategy()
    }

    /// The presence bits, one for each priority.
    pub closed spec fn presence(&self) -> Seq<bool> {
        self.bitmap@
    }

    /// The threads ready at `priority`, the one made ready last first.
    pub closed spec fn ready(&self, priority: usize) -> Seq<usize> {
        self.nodes.ring(priority)
    }

    /// The exited threads that wait to be reclaimed, the last one first.
    pub closed spec fn defunct(&self) -> Seq<usize> {
        self.nodes.ring(self.priority_max)
    }

    /// `handle` names a thread of this scheduler.
    pub closed spec fn is_thread(&self, handle: usize) -> bool {
        self.priority_max < handle <= self.priority_max + self.threads@.len()
    }

    /// The descriptor of the thread that `handle` names.
    pub closed spec fn thread(&self, handle: usize) -> Thread {
        self.threads@[handle - self.priority_max - 1]
    }

    /// The handle that the next adopted thread will get.
    pub closed spec fn next_handle(&self) -> nat {
        (self.priority_max + 1 + self.threads@.len()) as nat
    }

    /// The thread `handle` is on no scheduling list.
    pub closed spec fn idle(&self, handle: usize) -> bool {
        self.nodes.detached(handle)
    }

    /// The scheduler with the nesting depth of its lock set to `depth` and
    /// nothing else changed.
    pub closed spec fn with_lock(&self, depth: u16) -> Scheduler {
        Scheduler { lock_nest: depth, ..*self }
    }

    /// Setting the nesting depth touches nothing but the depth, and setting
    /// it back gives the scheduler back.
    pub proof fn lemma_with_lock(&self, depth: u16)
        ensures
            self.with_lock(self.lock_nest()) == *self,
            self.with_lock(depth).lock_nest() == depth,
            forall|d: u16| #[trigger] self.with_lock(depth).with_lock(d) == self.with_lock(d),
            self.with_lock(depth).wf() == self.wf(),
            self.with_lock(depth).same_core(self),
            self.with_lock(depth).same_lists(self),
            self.with_lock(depth).same_threads(self),
            self.with_lock(depth).presence() == self.presence(),
    {
    }

    /// Some thread is ready.
    pub open spec fn has_ready(&self) -> bool {
        exists|p: usize| p < self.priority_max() && #[trigger] self.ready(p).len() > 0
    }

    /// The two schedulers have the same lists.
    pub open spec fn same_lists(&self, other: &Scheduler) -> bool {
        &&& self.defunct() == other.defunct()
        &&& forall|p: usize| p < self.priority_max() ==> #[trigger] self.ready(p) == other.ready(p)
    }

    /// The two schedulers have the same threads, but for the thread
    /// `except`.
    pub open spec fn same_threads_but(&self, other: &Scheduler, except: usize) -> bool {
        &&& self.next_handle() == other.next_handle()
        &&& forall|h: usize| self.is_thread(h) <==> other.is_thread(h)
        &&& forall|h: usize|
            other.is_thread(h) && h != except ==> #[trigger] self.thread(h) == other.thread(h)
        &&& forall|h: usize|
            other.is_thread(h) && h != except ==> (#[trigger] self.idle(h) <==> other.idle(h))
    }

    /// The two schedulers have the same threads, on a list or off.
    pub open spec fn same_threads(&self, other: &Scheduler) -> bool {
        &&& self.next_handle() == other.next_handle()
        &&& forall|h: usize| self.is_thread(h) <==> other.is_thread(h)
        &&& forall|h: usize| #[trigger] self.thread(h) == other.thread(h)
        &&& forall|h: usize| #[trigger] self.idle(h) <==> other.idle(h)
    }

    /// The two schedulers have the same core state: number of priorities,
    /// layout, current thread and its priority.
    pub open spec fn same_core(&self, other: &Scheduler) -> bool {
        &&& self.priority_max() == other.priority_max()
        &&& self.strategy() == other.strategy()
        &&& self.current_priority() == other.current_priority()
        &&& self.current_thread() == other.current_thread()
    }

    spec fn first(&self) -> int {
        self.priority_max + 1
    }

    /// The lists hold threads only, every ready thread is on the list of its
    /// own priority, and a presence bit is set exactly while its list has a
    /// thread.
    pub closed spec fn wf(&self) -> bool {
        fits(self.priority_max, self.bitmap, self.nodes, self.threads@, self.current_thread)
    }

    /// The number of priorities is within the limits, the layout is the one
    /// that goes with it, and the current thread is a thread.
    pub proof fn lemma_core(&self)
        requires
            self.wf(),
        ensures
            0 < self.priority_max() <= PRIORITY_LIMIT,
            self.strategy() == strategy_for(self.priority_max()),
            self.presence().len() == self.priority_max(),
            self.current_thread() matches Some(h) ==> self.is_thread(h),
            self.defunct().no_duplicates(),
            forall|i: int|
                0 <= i < self.defunct().len() ==> self.is_thread(#[trigger] self.defunct()[i]),
    {
        self.lemma_lists(0);
    }

    /// What a well-formed scheduler holds: each presence bit mirrors its
    /// list, each list holds distinct threads, and a ready thread has the
    /// priority of its list.
    pub proof fn lemma_lists(&self, priority: usize)
        requires
            self.wf(),
            priority < self.priority_max(),
        ensures
            0 < self.priority_max() <= PRIORITY_LIMIT,
            self.strategy() == strategy_for(self.priority_max()),
            self.presence().len() == self.priority_max(),
            self.presence()[priority as int] == (self.ready(priority).len() > 0),
            self.ready(priority).no_duplicates(),
            self.defunct().no_duplicates(),
            forall|i: int|
                0 <= i < self.ready(priority).len() ==> {
                    let h = #[trigger] self.ready(priority)[i];
                    &&& self.is_thread(h)
                    &&& self.thread(h).current_priority == priority
                },
            forall|i: int|
                0 <= i < self.defunct().len() ==> self.is_thread(#[trigger] self.defunct()[i]),
            self.current_thread() matches Some(h) ==> self.is_thread(h),
    {
        self.nodes.lemma_ring_shape(priority);
        self.nodes.lemma_ring_shape(self.priority_max);
        assert(head_ok(self.priority_max, self.nodes, self.threads@, priority));
        assert(head_ok(self.priority_max, self.nodes, self.threads@, self.priority_max));
        assert forall|i: int| 0 <= i < self.ready(priority).len() implies {
            let h = #[trigger] self.ready(priority)[i];
            &&& self.is_thread(h)
            &&& self.thread(h).current_priority == priority
        } by {
            assert(member_ok(
                self.priority_max,
                self.threads@,
                priority,
                self.nodes.ring(priority)[i],
            ));
        }
        assert forall|i: int| 0 <= i < self.defunct().len() implies self.is_thread(
            #[trigger] self.defunct()[i],
        ) by {
            assert(member_ok(
                self.priority_max,
                self.threads@,
                self.priority_max,
                self.nodes.ring(self.priority_max)[i],
            ));
        }
    }

    /// A thread is on one scheduling list at most: not on the ready lists of
    /// two priorities, and not on a ready list and the list of exited
    /// threads.
    pub proof fn lemma_one_list(&self, handle: usize, p: usize, q: usize)
        requires
            self.wf(),
            p < self.priority_max(),
            q < self.priority_max(),
            p != q,
        ensures
            !(self.ready(p).contains(handle) && self.ready(q).contains(handle)),
            !(self.ready(p).contains(handle) && self.defunct().contains(handle)),
    {
        let pm = self.priority_max;
        self.nodes.lemma_len_fits();
        assert(head_ok(pm, self.nodes, self.threads@, p));
        assert(head_ok(pm, self.nodes, self.threads@, q));
        assert(head_ok(pm, self.nodes, self.threads@, pm));
        if self.ready(p).contains(handle) {
            let i = choose|i: int| 0 <= i < self.ready(p).len() && self.ready(p)[i] == handle;
            assert(member_ok(pm, self.threads@, p, self.nodes.ring(p)[i]));
            if self.ready(q).contains(handle) {
                let j = choose|j: int| 0 <= j < self.ready(q).len() && self.ready(q)[j] == handle;
                assert(member_ok(pm, self.threads@, q, self.nodes.ring(q)[j]));
            }
            if self.defunct().contains(handle) {
                let j = choose|j: int|
                    0 <= j < self.defunct().len() && self.defunct()[j] == handle;
                self.nodes.lemma_shared_member(p, i, pm, j);
                if self.nodes.ring(p).contains(pm) {
                    let k = choose|k: int|
                        0 <= k < self.nodes.ring(p).len() && self.nodes.ring(p)[k] == pm;
                    assert(member_ok(pm, self.threads@, p, self.nodes.ring(p)[k]));
                } else {
                    let k = choose|k: int|
                        0 <= k < self.nodes.ring(pm).len() && self.nodes.ring(pm)[k] == p;
                    assert(member_ok(pm, self.threads@, pm, self.nodes.ring(pm)[k]));
                }
            }
        }
    }

    /// Every thread has a priority below the number of priorities, carries
    /// the group bit of that priority, and is named by its own handle.
    pub proof fn lemma_thread(&self, handle: usize)
        requires
            self.wf(),
            self.is_thread(handle),
        ensures
            self.thread(handle).list == handle,
            self.thread(handle).current_priority < self.priority_max(),
            self.thread(handle).number_mask == group_mask(
                self.strategy(),
                self.thread(handle).current_priority,
            ),
    {
        assert(thread_ok(
            self.priority_max,
            strategy_for(self.priority_max),
            self.threads@,
            handle - self.first(),
        ));
    }
}

} // verus!
