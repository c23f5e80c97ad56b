use std::cell::RefCell;

use rrtt::class::{ClassSet, ObjectClassType};
use rrtt::cpu::Cpu;
use rrtt::kernel::Kernel;
use rrtt::machine::MachineCall;
use rrtt::object::Object;
use rrtt::scheduler::start;
use rrtt::thread::{exit, thread_cleanup_execute, Thread, ThreadState};

struct Fixture {
    kernel: Kernel,
    threads: Vec<usize>,
    headers: Vec<usize>,
}

/// A kernel with one thread for each of `priorities`, all ready. The header
/// of thread `k` is registered exactly if `registered[k]`.
fn fixture(priority_max: usize, priorities: &[u8], registered: &[bool]) -> Fixture {
    let mut kernel = Kernel::new(true, &ClassSet::minimal(), priority_max);
    let mut threads = Vec::new();
    let mut headers = Vec::new();
    for (k, p) in priorities.iter().enumerate() {
        let header = Object::allocate(&mut kernel);
        if registered[k] {
            let name = format!("t{}", k);
            assert_eq!(Ok(()), Object::init(&mut kernel, header, ObjectClassType::Thread, &name));
        }
        let handle = kernel.adopt(Thread::new(header, 0, 0, 0x100 * (k + 1), 64, *p, 5));
        let cpu = Cpu { has_control: true, mask: 1 };
        kernel.scheduler.insert_thread(&cpu, handle);
        threads.push(handle);
        headers.push(header);
    }
    Fixture { kernel, threads, headers }
}

#[test]
fn cleanup_runs_with_the_token_and_leaves_the_kernel_alone() {
    let mut f = fixture(8, &[2], &[true]);
    let t = f.threads[0];
    let calls = RefCell::new(Vec::new());
    let machine = |_: Cpu, call: MachineCall| calls.borrow_mut().push(call);
    thread_cleanup_execute(&mut f.kernel, t, &machine);
    assert!(calls.borrow().is_empty());
    f.kernel.scheduler.set_cleanup(t, Some(42));
    thread_cleanup_execute(&mut f.kernel, t, &machine);
    assert_eq!(vec![MachineCall::Cleanup { routine: 42, thread: t }], calls.into_inner());
    assert_eq!(0, f.kernel.cpu.mask);
    assert_eq!(vec![t], f.kernel.scheduler.ready_list(2));
}

#[test]
fn exit_of_a_registered_thread_detaches_its_record() {
    let mut f = fixture(8, &[1, 3], &[true, true]);
    let (t0, t1) = (f.threads[0], f.threads[1]);
    f.kernel.scheduler.set_cleanup(t0, Some(9));
    let calls = RefCell::new(Vec::new());
    let machine = |_: Cpu, call: MachineCall| calls.borrow_mut().push(call);
    assert_eq!(t0, start(&mut f.kernel.scheduler, &Cpu::new(true), &machine));
    calls.borrow_mut().clear();

    let next = exit(&mut f.kernel, &machine);

    assert_eq!(Some(t1), next);
    assert_eq!(Some(t1), f.kernel.scheduler.current());
    assert_eq!(
        vec![
            MachineCall::Cleanup { routine: 9, thread: t0 },
            MachineCall::DetachTimer { thread: t0 },
            MachineCall::SwitchTo { thread: t1, sp: 0x200 },
        ],
        calls.into_inner()
    );
    assert_eq!(ThreadState::Closed, f.kernel.scheduler.descriptor(t0).stat);
    assert!(f.kernel.scheduler.ready_list(1).is_empty());
    assert!(!f.kernel.scheduler.is_present(1));
    assert!(f.kernel.scheduler.is_idle(t0));
    assert!(f.kernel.scheduler.defunct_list().is_empty());
    assert_eq!(0, Object::get(&f.kernel, f.headers[0]).kind);
    assert_eq!(1, Object::get_length(&mut f.kernel, ObjectClassType::Thread));
    assert_eq!(None, Object::find(&mut f.kernel, "t0", ObjectClassType::Thread));
    assert_eq!(Some(f.headers[1]), Object::find(&mut f.kernel, "t1", ObjectClassType::Thread));
    assert_eq!(0, f.kernel.cpu.mask);
    assert_eq!(0, f.kernel.scheduler.lock_depth());
}

#[test]
fn exit_of_an_unregistered_thread_queues_it_for_reclaiming() {
    let mut f = fixture(40, &[35, 33], &[false, true]);
    let (t0, t1) = (f.threads[0], f.threads[1]);
    let calls = RefCell::new(Vec::new());
    let machine = |_: Cpu, call: MachineCall| calls.borrow_mut().push(call);
    f.kernel.scheduler.set_current(Some(t0));

    let next = exit(&mut f.kernel, &machine);

    assert_eq!(Some(t1), next);
    assert_eq!(
        vec![
            MachineCall::DetachTimer { thread: t0 },
            MachineCall::SwitchTo { thread: t1, sp: 0x200 },
        ],
        calls.into_inner()
    );
    assert_eq!(vec![t0], f.kernel.scheduler.defunct_list());
    assert!(!f.kernel.scheduler.is_idle(t0));
    assert_eq!(ThreadState::Closed, f.kernel.scheduler.descriptor(t0).stat);
    assert!(!f.kernel.scheduler.is_present(35));
    assert_eq!(1, Object::get_length(&mut f.kernel, ObjectClassType::Thread));
}

#[test]
fn exit_of_the_last_thread_leaves_no_current_thread() {
    let mut f = fixture(8, &[0], &[true]);
    let calls = RefCell::new(Vec::new());
    let machine = |_: Cpu, call: MachineCall| calls.borrow_mut().push(call);
    start(&mut f.kernel.scheduler, &Cpu::new(true), &machine);
    calls.borrow_mut().clear();
    let next = exit(&mut f.kernel, &machine);
    assert_eq!(None, next);
    assert_eq!(None, f.kernel.scheduler.current());
    assert_eq!(vec![MachineCall::DetachTimer { thread: f.threads[0] }], calls.into_inner());
    assert_eq!(None, f.kernel.scheduler.highest_ready_priority());
}

#[test]
fn exiting_threads_queue_last_first() {
    let mut f = fixture(8, &[1, 2, 3], &[false, false, false]);
    let machine = |_: Cpu, _: MachineCall| {};
    start(&mut f.kernel.scheduler, &Cpu::new(true), &machine);
    assert_eq!(Some(f.threads[1]), exit(&mut f.kernel, &machine));
    assert_eq!(Some(f.threads[2]), exit(&mut f.kernel, &machine));
    assert_eq!(None, exit_if_current(&mut f.kernel));
    assert_eq!(
        vec![f.threads[2], f.threads[1], f.threads[0]],
        f.kernel.scheduler.defunct_list()
    );
}

fn exit_if_current(kernel: &mut Kernel) -> Option<usize> {
    let machine = |_: Cpu, _: MachineCall| {};
    if kernel.scheduler.current().is_some() {
        exit(kernel, &machine)
    } else {
        None
    }
}

#[test]
fn exit_keeps_the_mask_that_was_in_force() {
    let mut f = fixture(8, &[1, 2], &[true, false]);
    let machine = |_: Cpu, _: MachineCall| {};
    start(&mut f.kernel.scheduler, &Cpu::new(true), &machine);
    f.kernel.cpu.mask = 1;
    exit(&mut f.kernel, &machine);
    assert_eq!(1, f.kernel.cpu.mask);
    f.kernel.cpu.mask = 0;
    exit(&mut f.kernel, &machine);
    assert_eq!(0, f.kernel.cpu.mask);
}

#[test]
fn machine_is_called_with_interrupts_off() {
    let mut f = fixture(8, &[1, 2], &[true, true]);
    f.kernel.scheduler.set_cleanup(f.threads[0], Some(1));
    let quiet = |_: Cpu, _: MachineCall| {};
    start(&mut f.kernel.scheduler, &Cpu::new(true), &quiet);
    let masks = RefCell::new(Vec::new());
    let machine = |cpu: Cpu, _: MachineCall| masks.borrow_mut().push(cpu.mask);
    assert_eq!(0, f.kernel.cpu.mask);
    exit(&mut f.kernel, &machine);
    assert_eq!(vec![1, 1, 1], masks.into_inner());
    assert_eq!(0, f.kernel.cpu.mask);
}

#[test]
fn new_descriptor_has_the_documented_fields() {
    let t = Thread::new(3, 0x10, 0x20, 0x30, 0x40, 5, 6);
    assert_eq!(
        Thread {
            header: 3,
            list: 0,
            sp: 0x30,
            entry: 0x10,
            parameter: 0x20,
            stack_address: 0x30,
            stack_size: 0x40,
            error: 0,
            stat: ThreadState::Init,
            current_priority: 5,
            init_priority: 5,
            number_mask: 0,
            init_tick: 6,
            remain_tick: 6,
            cleanup: None,
            user_data: 0,
        },
        t
    );
}
