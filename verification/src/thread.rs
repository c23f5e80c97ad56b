//! The thread descriptor, and what happens when a thread exits.

use crate::class::STATIC_FLAG;
use crate::cpu::{disabled, lemma_guard_round_trip, Cpu, InterruptFreeGuard};
use crate::kernel::Kernel;
use crate::list::without;
use crate::machine::MachineCall;
use crate::object::Object;
use vstd::prelude::*;

verus! {

/// The run state of a thread.
#[derive(Clone, Copy, PartialEq, Eq, Debug, Structural)]
pub enum ThreadState {
    /// Set up, never made ready.
    Init,
    /// On a ready list.
    Ready,
    /// Holding the core.
    Running,
    /// Exited; waiting to be reclaimed or already detached.
    Closed,
}

/// The descriptor of a thread. Addresses are plain words: the kernel never
/// follows them.
#[derive(Clone, Copy, PartialEq, Eq, Debug)]
pub struct Thread {
    /// Handle of the thread's object record in the registry.
    pub header: usize,
    /// Position of the node that links the thread into a scheduling list,
    /// which is the thread's handle.
    pub list: usize,
    /// Saved stack pointer.
    pub sp: usize,
    /// Address of the entry point.
    pub entry: usize,
    /// The word handed to the entry point.
    pub parameter: usize,
    /// Lowest address of the stack.
    pub stack_address: usize,
    /// Size of the stack in bytes.
    pub stack_size: usize,
    /// Last error code.
    pub error: usize,
    /// Run state.
    pub stat: ThreadState,
    /// Priority in force; a lower number runs first.
    pub current_priority: u8,
    /// Priority that the thread was set up with.
    pub init_priority: u8,
    /// The bit of the thread's priority in the group word of the ready
    /// bitmap.
    pub number_mask: u32,
    /// Length of a time slice in ticks.
    pub init_tick: usize,
    /// Ticks left of the running slice.
    pub remain_tick: usize,
    /// The routine to run when the thread exits, as the token by which the
    /// machine layer knows it.
    pub cleanup: Option<usize>,
    /// A word for the user.
    pub user_data: u32,
}

impl Thread {
    /// A descriptor for a thread that was never made ready. Its stack
    /// pointer stands at the base of the stack until the machine layer
    /// prepares the stack; its place among the scheduler's threads is given on adoption.
    pub fn new(
        header: usize,
        entry: usize,
        parameter: usize,
        stack_address: usize,
        stack_size: usize,
        priority: u8,
        tick: usize,
    ) -> (thread: Thread)
        ensures
            thread == (Thread {
                header,
                list: 0,
                sp: stack_address,
                entry,
                parameter,
                stack_address,
                stack_size,
                error: 0,
                stat: ThreadState::Init,
                current_priority: priority,
                init_priority: priority,
                number_mask: 0,
                init_tick: tick,
                remain_tick: tick,
                cleanup: None,
                user_data: 0,
            }),
    {
        Thread {
            header,
            list: 0,
            sp: stack_address,
            entry,
            parameter,
            stack_address,
            stack_size,
            error: 0,
            stat: ThreadState::Init,
            current_priority: priority,
            init_priority: priority,
            number_mask: 0,
            init_tick: tick,
            remain_tick: tick,
            cleanup: None,
            user_data: 0,
        }
    }
}

/// Runs the exit routine of `thread`, if it has one, with interrupts off.
/// The kernel is left as it was.
pub fn thread_cleanup_execute<F: Fn(Cpu, MachineCall)>(
    kernel: &mut Kernel,
    thread: usize,
    machine: &F,
)
    requires
        old(kernel).scheduler.wf(),
        old(kernel).scheduler.is_thread(thread),
        forall|cpu: Cpu, call: MachineCall|
            cpu.exclusive() ==> call_requires(*machine, (cpu, call)),
    ensures
        *final(kernel) == *old(kernel),
        old(kernel).scheduler.thread(thread).cleanup matches Some(routine) ==> call_ensures(
            *machine,
            (disabled(old(kernel).cpu), MachineCall::Cleanup { routine, thread }),
            (),
        ),
{
    proof {
        lemma_guard_round_trip(kernel.cpu);
    }
    let guard = InterruptFreeGuard::new(&mut kernel.cpu);
    if let Some(routine) = kernel.scheduler.descriptor(thread).cleanup {
        machine(kernel.cpu, MachineCall::Cleanup { routine, thread });
    }
    guard.release(&mut kernel.cpu);
}

/// Ends the thread that holds the core. The machine layer is called with
/// interrupts off only.
///
/// First its exit routine runs, if it has one. Then, in one stretch with
/// interrupts off: the thread leaves the scheduling list that holds it; it
/// is marked closed; the machine layer is asked to detach its timer; if its
/// object record carries the static flag the record is taken out of the
/// registry, else the thread goes to the front of the list of exited
/// threads; and the thread that is now first in line becomes the current
/// thread, which the machine layer is asked to switch to. Returns that
/// thread; none if no thread is ready, and then no thread is current.
#[verifier::rlimit(40)]
pub fn exit<F: Fn(Cpu, MachineCall)>(kernel: &mut Kernel, machine: &F) -> (next: Option<usize>)
    requires
        old(kernel).wf(),
        old(kernel).scheduler.current_thread() is Some,
        forall|cpu: Cpu, call: MachineCall|
            cpu.exclusive() ==> call_requires(*machine, (cpu, call)),
    ensures
        final(kernel).wf(),
        final(kernel).cpu == old(kernel).cpu,
        ({
            let before = old(kernel).scheduler;
            let after = final(kernel).scheduler;
            let thread = before.current_thread().unwrap();
            let header = before.thread(thread).header;
            let system = old(kernel).registry.object(header).kind & STATIC_FLAG != 0;
            &&& after.priority_max() == before.priority_max()
            &&& after.strategy() == before.strategy()
            &&& after.lock_nest() == before.lock_nest()
            &&& after.current_priority() == before.current_priority()
            &&& after.same_threads_but(&before, thread)
            &&& after.thread(thread) == (Thread {
                stat: ThreadState::Closed,
                ..before.thread(thread)
            })
            &&& forall|p: usize|
                p < before.priority_max() ==> #[trigger] after.ready(p) == without(
                    before.ready(p),
                    thread,
                )
            &&& after.defunct() == (if system {
                without(before.defunct(), thread)
            } else {
                without(before.defunct(), thread).insert(0, thread)
            })
            &&& after.idle(thread) == system
            &&& next == after.front()
            &&& after.current_thread() == next
            &&& if system {
                final(kernel).registry.detached(&old(kernel).registry, header)
            } else {
                final(kernel).registry == old(kernel).registry
            }
            &&& before.thread(thread).cleanup matches Some(routine) ==> call_ensures(
                *machine,
                (disabled(old(kernel).cpu), MachineCall::Cleanup { routine, thread }),
                (),
            )
            &&& call_ensures(
                *machine,
                (disabled(old(kernel).cpu), MachineCall::DetachTimer { thread }),
                (),
            )
            &&& next matches Some(to_thread) ==> call_ensures(
                *machine,
                (
                    disabled(old(kernel).cpu),
                    MachineCall::SwitchTo { thread: to_thread, sp: after.thread(to_thread).sp },
                ),
                (),
            )
        }),
{
    let thread = kernel.scheduler.current().unwrap();
    proof {
        kernel.scheduler.lemma_core();
        lemma_guard_round_trip(kernel.cpu);
    }
    thread_cleanup_execute(kernel, thread, machine);
    let guard = InterruptFreeGuard::new(&mut kernel.cpu);
    kernel.scheduler.remove_thread(&kernel.cpu, thread);
    let ghost removed = kernel.scheduler;
    kernel.scheduler.set_state(thread, ThreadState::Closed);
    let ghost closed = kernel.scheduler;
    machine(kernel.cpu, MachineCall::DetachTimer { thread });
    let header = kernel.scheduler.descriptor(thread).header;
    proof {
        assert(closed.thread(thread).header == old(kernel).scheduler.thread(thread).header);
        assert(kernel.registry.is_object(header));
        assert forall|p: usize| p < closed.priority_max() implies #[trigger] closed.ready(p)
            == without(old(kernel).scheduler.ready(p), thread) by {
            assert(closed.ready(p) == removed.ready(p));
        }
    }
    let system = Object::get(kernel, header).is_system_object();
    if system {
        Object::detach(kernel, header);
    } else {
        kernel.scheduler.retire(&kernel.cpu, thread);
    }
    let ghost settled = kernel.scheduler;
    proof {
        assert forall|p: usize| p < settled.priority_max() implies #[trigger] settled.ready(p)
            == without(old(kernel).scheduler.ready(p), thread) by {
            assert(settled.ready(p) == closed.ready(p));
        }
        assert forall|h: usize| settled.is_thread(h) implies kernel.registry.is_object(
            (#[trigger] settled.thread(h)).header,
        ) by {
            assert(old(kernel).scheduler.is_thread(h));
            assert(settled.thread(h).header == old(kernel).scheduler.thread(h).header) by {
                if h != thread {
                    assert(settled.thread(h) == closed.thread(h));
                    assert(closed.thread(h) == removed.thread(h));
                    assert(removed.thread(h) == old(kernel).scheduler.thread(h));
                }
            }
            assert(old(kernel).registry.is_object(old(kernel).scheduler.thread(h).header));
        }
        assert(settled.same_threads_but(&old(kernel).scheduler, thread)) by {
            assert forall|h: usize|
                old(kernel).scheduler.is_thread(h) && h != thread implies #[trigger] settled.thread(
                h,
            ) == old(kernel).scheduler.thread(h) by {
                assert(settled.thread(h) == closed.thread(h));
                assert(closed.thread(h) == removed.thread(h));
            }
            assert forall|h: usize|
                old(kernel).scheduler.is_thread(h) && h != thread implies (#[trigger] settled.idle(
                h,
            ) <==> old(kernel).scheduler.idle(h)) by {
                assert(settled.idle(h) <==> closed.idle(h));
                assert(closed.idle(h) <==> removed.idle(h));
            }
        }
    }
    let next = kernel.scheduler.next_thread();
    proof {
        kernel.scheduler.lemma_with_current(next);
    }
    kernel.scheduler.set_current(next);
    proof {
        let after = kernel.scheduler;
        assert forall|p: usize| p < after.priority_max() implies #[trigger] after.ready(p)
            == without(old(kernel).scheduler.ready(p), thread) by {
            assert(after.ready(p) == settled.ready(p));
        }
        assert(after.same_threads_but(&old(kernel).scheduler, thread)) by {
            assert forall|h: usize|
                old(kernel).scheduler.is_thread(h) && h != thread implies #[trigger] after.thread(
                h,
            ) == old(kernel).scheduler.thread(h) by {
                assert(after.thread(h) == settled.thread(h));
            }
            assert forall|h: usize|
                old(kernel).scheduler.is_thread(h) && h != thread implies (#[trigger] after.idle(
                h,
            ) <==> old(kernel).scheduler.idle(h)) by {
                assert(after.idle(h) <==> settled.idle(h));
            }
        }
        assert forall|h: usize| after.is_thread(h) implies kernel.registry.is_object(
            (#[trigger] after.thread(h)).header,
        ) by {
            assert(settled.is_thread(h));
            assert(after.thread(h) == settled.thread(h));
            assert(kernel.registry.is_object(settled.thread(h).header));
        }
        assert(after.front() == settled.front()) by {
            assert forall|p: usize| p < after.priority_max() implies #[trigger] after.ready(p)
                == settled.ready(p) by {}
            crate::bitmap::lemma_scan(after.presence(), 0);
            after.lemma_core();
            if let Some(p) = crate::bitmap::lowest(after.presence()) {
                assert(after.ready(p as usize) == settled.ready(p as usize));
            }
        }
    }
    if let Some(to_thread) = next {
        let sp = kernel.scheduler.descriptor(to_thread).sp;
        machine(kernel.cpu, MachineCall::SwitchTo { thread: to_thread, sp });
    }
    guard.release(&mut kernel.cpu);
    next
}

} // verus!
