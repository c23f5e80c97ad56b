use rrtt::cpu::{Cpu, InterruptFreeGuard, MASKED, NO_MASK};

#[test]
fn guard_masks_and_restores() {
    let mut cpu = Cpu::new(true);
    assert_eq!(Cpu { has_control: true, mask: 0 }, cpu);
    let guard = InterruptFreeGuard::new(&mut cpu);
    assert_eq!(MASKED, cpu.mask);
    assert_eq!(1, cpu.mask);
    guard.release(&mut cpu);
    assert_eq!(0, cpu.mask);
}

#[test]
fn nested_guards_release_in_reverse_and_restore_the_mask() {
    for first_mask in [0usize, 1, 5] {
        let mut cpu = Cpu { has_control: true, mask: first_mask };
        let outer = InterruptFreeGuard::new(&mut cpu);
        assert_eq!(MASKED, cpu.mask);
        let inner = InterruptFreeGuard::new(&mut cpu);
        assert_eq!(MASKED, cpu.mask);
        inner.release(&mut cpu);
        assert_eq!(MASKED, cpu.mask);
        outer.release(&mut cpu);
        assert_eq!(first_mask, cpu.mask);
    }
}

#[test]
fn deep_nesting_restores_the_mask() {
    let mut cpu = Cpu { has_control: true, mask: 0 };
    let mut guards = Vec::new();
    for _ in 0..50 {
        guards.push(InterruptFreeGuard::new(&mut cpu));
        assert_eq!(MASKED, cpu.mask);
    }
    while let Some(guard) = guards.pop() {
        guard.release(&mut cpu);
        assert_eq!(if guards.is_empty() { 0 } else { MASKED }, cpu.mask);
    }
}

#[test]
fn without_control_nothing_changes() {
    for mask in [0usize, 1, 7] {
        let mut cpu = Cpu { has_control: false, mask };
        let before = cpu;
        assert_eq!(NO_MASK, cpu.interrupt_disable());
        assert_eq!(before, cpu);
        cpu.interrupt_enable(3);
        assert_eq!(before, cpu);
        let outer = InterruptFreeGuard::new(&mut cpu);
        let inner = InterruptFreeGuard::new(&mut cpu);
        assert_eq!(before, cpu);
        inner.release(&mut cpu);
        outer.release(&mut cpu);
        assert_eq!(before, cpu);
    }
}

#[test]
fn disable_returns_the_mask_in_force() {
    let mut cpu = Cpu { has_control: true, mask: 0 };
    assert_eq!(0, cpu.interrupt_disable());
    assert_eq!(1, cpu.interrupt_disable());
    cpu.interrupt_enable(0);
    assert_eq!(0, cpu.mask);
    assert_eq!(0, NO_MASK);
}
