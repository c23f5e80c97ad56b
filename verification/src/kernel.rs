//! The one kernel state, made once at boot and handed to every kernel
//! operation.

use crate::bitmap::PRIORITY_LIMIT;
use crate::class::ClassSet;
use crate::cpu::Cpu;
use crate::object::Registry;
use crate::scheduler::{group_mask, strategy_for, Scheduler};
use crate::thread::Thread;
use vstd::prelude::*;

verus! {

/// The state of the kernel: the interrupt mask of the core, the object
/// registry and the scheduler.
pub struct Kernel {
    /// The interrupt mask of the core.
    pub cpu: Cpu,
    /// The object registry.
    pub registry: Registry,
    /// The scheduler.
    pub scheduler: Scheduler,
}

impl Kernel {
    /// Registry and scheduler are well-formed, and the object record of
    /// every thread is storage of the registry.
    pub open spec fn wf(&self) -> bool {
        &&& self.registry.wf()
        &&& self.scheduler.wf()
        &&& forall|h: usize|
            self.scheduler.is_thread(h) ==> self.registry.is_object(
                (#[trigger] self.scheduler.thread(h)).header,
            )
    }

    /// The kernel as it stands at boot: interrupts let through, an empty
    /// registry slot for each class of `classes`, and a scheduler for
    /// `priority_max` priorities that knows no thread.
    pub fn new(has_control: bool, classes: &ClassSet, priority_max: usize) -> (kernel: Kernel)
        requires
            0 < priority_max <= PRIORITY_LIMIT,
        ensures
            kernel.wf(),
            kernel.cpu == (Cpu { has_control, mask: 0 }),
            kernel.registry.classes() == classes.classes(),
            forall|class: crate::class::ObjectClassType| #[trigger]
                kernel.registry.classes().contains(class) <==> classes.has(class),
            kernel.registry.object_count() == 0,
            forall|class: crate::class::ObjectClassType| #[trigger]
                kernel.registry.members(class).len() == 0,
            kernel.scheduler.priority_max() == priority_max,
            kernel.scheduler.strategy() == strategy_for(priority_max),
            kernel.scheduler.lock_nest() == 0,
            kernel.scheduler.current_priority() == 0,
            kernel.scheduler.current_thread() is None,
            !kernel.scheduler.has_ready(),
            kernel.scheduler.presence() == Seq::new(priority_max as nat, |i: int| false),
            forall|p: usize| p < priority_max ==> #[trigger] kernel.scheduler.ready(p).len() == 0,
            kernel.scheduler.defunct().len() == 0,
            forall|h: usize| !kernel.scheduler.is_thread(h),
    {
        Kernel {
            cpu: Cpu::new(has_control),
            registry: Registry::new(classes),
            scheduler: crate::scheduler::init(priority_max),
        }
    }

    /// Takes in a thread whose object record is storage of the registry and
    /// whose priority the scheduler has, and returns its handle. The thread
    /// is on no list; nothing else changes.
    pub fn adopt(&mut self, thread: Thread) -> (handle: usize)
        requires
            old(self).wf(),
            old(self).registry.is_object(thread.header),
            thread.current_priority < old(self).scheduler.priority_max(),
        ensures
            final(self).wf(),
            final(self).cpu == old(self).cpu,
            final(self).registry == old(self).registry,
            handle == old(self).scheduler.next_handle(),
            !old(self).scheduler.is_thread(handle),
            final(self).scheduler.is_thread(handle),
            final(self).scheduler.idle(handle),
            final(self).scheduler.thread(handle) == (Thread {
                list: handle,
                number_mask: group_mask(old(self).scheduler.strategy(), thread.current_priority),
                ..thread
            }),
            forall|h: usize|
                final(self).scheduler.is_thread(h) <==> old(self).scheduler.is_thread(h) || h
                    == handle,
            forall|h: usize|
                old(self).scheduler.is_thread(h) ==> #[trigger] final(self).scheduler.thread(h)
                    == old(self).scheduler.thread(h),
            forall|h: usize|
                old(self).scheduler.is_thread(h) ==> (#[trigger] final(self).scheduler.idle(h)
                    <==> old(self).scheduler.idle(h)),
            final(self).scheduler.same_core(&old(self).scheduler),
            final(self).scheduler.same_lists(&old(self).scheduler),
            final(self).scheduler.lock_nest() == old(self).scheduler.lock_nest(),
    {
        self.scheduler.adopt(thread)
    }
}

} // verus!
