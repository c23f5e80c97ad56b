use std::cell::RefCell;

use rrtt::bitmap::Strategy;
use rrtt::cpu::{Cpu, InterruptFreeGuard};
use rrtt::machine::MachineCall;
use rrtt::scheduler::{init, start, LockNestedGuard, Scheduler};
use rrtt::thread::{Thread, ThreadState};

fn thread(priority: u8) -> Thread {
    Thread::new(0, 0x1000, 7, 0x2000, 512, priority, 10)
}

fn masked() -> Cpu {
    Cpu { has_control: true, mask: 1 }
}

fn filled(priority_max: usize, priorities: &[u8]) -> (Scheduler, Vec<usize>) {
    let mut sched = init(priority_max);
    let cpu = masked();
    let mut handles = Vec::new();
    for p in priorities {
        let h = sched.adopt(thread(*p));
        sched.insert_thread(&cpu, h);
        handles.push(h);
    }
    (sched, handles)
}

#[test]
fn init_gives_an_empty_scheduler() {
    for priority_max in [1usize, 8, 32, 33, 256] {
        let sched = init(priority_max);
        assert_eq!(priority_max, sched.priorities());
        assert_eq!(0, sched.lock_depth());
        assert_eq!(None, sched.current());
        assert_eq!(None, sched.highest_ready_priority());
        assert_eq!(None, sched.next_thread());
        assert!(sched.defunct_list().is_empty());
        for p in 0..priority_max {
            assert!(sched.ready_list(p).is_empty());
            assert!(!sched.is_present(p));
        }
    }
}

#[test]
fn adopted_thread_gets_handle_and_group_bit() {
    let mut flat = init(8);
    let h = flat.adopt(thread(3));
    assert_eq!(9, h);
    assert!(flat.knows(h));
    assert!(!flat.knows(8));
    assert!(!flat.knows(h + 1));
    assert!(flat.is_idle(h));
    let d = flat.descriptor(h);
    assert_eq!(h, d.list);
    assert_eq!(1 << 3, d.number_mask);
    assert_eq!(ThreadState::Init, d.stat);
    assert_eq!(3, d.current_priority);
    assert_eq!(3, d.init_priority);
    assert_eq!(10, d.init_tick);
    assert_eq!(10, d.remain_tick);
    assert_eq!(0x2000, d.sp);
    assert_eq!(None, d.cleanup);
    let second = flat.adopt(thread(0));
    assert_eq!(10, second);

    let mut two = init(64);
    let h = two.adopt(thread(43));
    assert_eq!(65, h);
    assert_eq!(1 << 5, two.descriptor(h).number_mask);
}

#[test]
fn ready_thread_goes_to_the_front_of_its_priority() {
    let (sched, h) = filled(8, &[3, 3, 5, 3]);
    assert_eq!(vec![h[3], h[1], h[0]], sched.ready_list(3));
    assert_eq!(vec![h[2]], sched.ready_list(5));
    assert!(sched.ready_list(0).is_empty());
    assert!(sched.is_present(3));
    assert!(sched.is_present(5));
    assert!(!sched.is_present(4));
    assert_eq!(Some(3), sched.highest_ready_priority());
    assert_eq!(Some(h[3]), sched.next_thread());
    for handle in &h {
        assert_eq!(ThreadState::Ready, sched.descriptor(*handle).stat);
        assert!(!sched.is_idle(*handle));
    }
}

#[test]
fn bit_mirrors_the_list_as_threads_leave() {
    for priority_max in [8usize, 40] {
        let (mut sched, h) = filled(priority_max, &[2, 2, 6]);
        let cpu = masked();
        sched.remove_thread(&cpu, h[0]);
        assert_eq!(vec![h[1]], sched.ready_list(2));
        assert!(sched.is_present(2));
        assert!(sched.is_idle(h[0]));
        sched.remove_thread(&cpu, h[1]);
        assert!(sched.ready_list(2).is_empty());
        assert!(!sched.is_present(2));
        assert_eq!(Some(6), sched.highest_ready_priority());
        sched.remove_thread(&cpu, h[2]);
        assert_eq!(None, sched.highest_ready_priority());
        // Taking an idle thread off changes nothing.
        sched.remove_thread(&cpu, h[2]);
        assert_eq!(None, sched.highest_ready_priority());
        for p in 0..priority_max {
            assert!(!sched.is_present(p));
        }
    }
}

#[test]
fn highest_priority_is_the_lowest_number_in_both_layouts() {
    let (sched, h) = filled(40, &[39, 33, 35]);
    assert_eq!(Strategy::TwoLevel, Strategy::for_priority_max(40));
    assert_eq!(Some(33), sched.highest_ready_priority());
    assert_eq!(Some(h[1]), sched.next_thread());
    let (sched, h) = filled(32, &[31, 17]);
    assert_eq!(Some(17), sched.highest_ready_priority());
    assert_eq!(Some(h[1]), sched.next_thread());
    let (sched, _) = filled(256, &[255]);
    assert_eq!(Some(255), sched.highest_ready_priority());
}

#[test]
fn search_matches_a_scan_of_the_lists() {
    let priorities: Vec<u8> = vec![60, 12, 47, 12, 33, 8, 63, 8];
    let (mut sched, h) = filled(64, &priorities);
    let cpu = masked();
    let mut left: Vec<(usize, u8)> = h.iter().copied().zip(priorities.iter().copied()).collect();
    while !left.is_empty() {
        let scan = (0..64).find(|p| !sched.ready_list(*p).is_empty());
        assert_eq!(scan, sched.highest_ready_priority());
        let lowest = left.iter().map(|(_, p)| *p).min().unwrap();
        assert_eq!(Some(lowest as usize), scan);
        let (handle, _) = left.remove(0);
        sched.remove_thread(&cpu, handle);
    }
    assert_eq!(None, sched.highest_ready_priority());
}

#[test]
fn start_installs_the_front_thread_and_asks_for_the_switch() {
    let (mut sched, h) = filled(8, &[4, 1, 1]);
    let calls = RefCell::new(Vec::new());
    let machine = |cpu: Cpu, call: MachineCall| calls.borrow_mut().push((cpu, call));
    let cpu = Cpu { has_control: true, mask: 0 };
    let to_thread = start(&mut sched, &cpu, &machine);
    assert_eq!(h[2], to_thread);
    assert_eq!(Some(h[2]), sched.current());
    assert_eq!(
        vec![(cpu, MachineCall::SwitchTo { thread: h[2], sp: 0x2000 })],
        calls.into_inner()
    );
    // The thread stays where it was; nothing else moved.
    assert_eq!(vec![h[2], h[1]], sched.ready_list(1));
    assert_eq!(vec![h[0]], sched.ready_list(4));
    assert_eq!(0, sched.lock_depth());
}

#[test]
fn lock_guard_counts_nesting() {
    let mut sched = init(8);
    let outer = LockNestedGuard::new(&mut sched);
    assert_eq!(1, sched.lock_depth());
    let inner = LockNestedGuard::new(&mut sched);
    assert_eq!(2, sched.lock_depth());
    inner.release(&mut sched);
    assert_eq!(1, sched.lock_depth());
    outer.release(&mut sched);
    assert_eq!(0, sched.lock_depth());
}

#[test]
fn lock_guard_masks_no_interrupt() {
    let mut sched = init(8);
    let mut cpu = Cpu::new(true);
    let lock = LockNestedGuard::new(&mut sched);
    assert_eq!(0, cpu.mask);
    let guard = InterruptFreeGuard::new(&mut cpu);
    assert_eq!(1, cpu.mask);
    guard.release(&mut cpu);
    lock.release(&mut sched);
    assert_eq!(0, cpu.mask);
}

#[test]
fn retired_threads_queue_last_first() {
    let mut sched = init(8);
    let cpu = masked();
    let a = sched.adopt(thread(1));
    let b = sched.adopt(thread(2));
    sched.retire(&cpu, a);
    sched.retire(&cpu, b);
    assert_eq!(vec![b, a], sched.defunct_list());
    assert!(!sched.is_idle(a));
    assert_eq!(None, sched.highest_ready_priority());
    sched.remove_thread(&cpu, a);
    assert_eq!(vec![b], sched.defunct_list());
    assert!(sched.is_idle(a));
}

#[test]
fn state_and_cleanup_can_be_written() {
    let mut sched = init(8);
    let a = sched.adopt(thread(1));
    sched.set_state(a, ThreadState::Running);
    sched.set_cleanup(a, Some(77));
    let d = sched.descriptor(a);
    assert_eq!(ThreadState::Running, d.stat);
    assert_eq!(Some(77), d.cleanup);
    assert_eq!(1, d.current_priority);
    sched.set_cleanup(a, None);
    assert_eq!(None, sched.descriptor(a).cleanup);
}

#[test]
fn a_thread_is_on_one_list_at_most() {
    let (mut sched, h) = filled(8, &[0, 1, 2, 3]);
    let cpu = masked();
    sched.remove_thread(&cpu, h[1]);
    sched.retire(&cpu, h[1]);
    let mut seen = Vec::new();
    for p in 0..8 {
        seen.extend(sched.ready_list(p));
    }
    seen.extend(sched.defunct_list());
    let mut sorted = seen.clone();
    sorted.sort();
    sorted.dedup();
    assert_eq!(seen.len(), sorted.len());
    assert_eq!(4, seen.len());
}
