//! The interrupt mask of the one core, and the guard that keeps maskable
//! interrupts off for the length of a critical section.
//!
//! The mask is a value of the kernel state. On a target with interrupt
//! control, [`Cpu::interrupt_disable`] and [`Cpu::interrupt_enable`] save and
//! restore it; on a target without, both leave everything as it is and the
//! saved word is [`NO_MASK`].

use vstd::prelude::*;

verus! {

/// Mask word of a core whose maskable interrupts are off.
pub const MASKED: usize = 1;

/// The word that a target without interrupt control hands out as the saved
/// mask.
pub const NO_MASK: usize = 0;

/// The interrupt mask of the core.
#[derive(Clone, Copy, PartialEq, Eq, Debug, Structural)]
pub struct Cpu {
    /// Whether the target can mask interrupts at all.
    pub has_control: bool,
    /// The mask word: 0 while interrupts are let through.
    pub mask: usize,
}

/// Keeps maskable interrupts off from [`InterruptFreeGuard::new`] to
/// [`InterruptFreeGuard::release`]. The mask that was in force before is kept
/// in the guard itself, so guards nest.
#[derive(Debug)]
#[must_use]
pub struct InterruptFreeGuard(usize);

/// The core after interrupts were switched off.
pub open spec fn disabled(cpu: Cpu) -> Cpu {
    if cpu.has_control {
        Cpu { has_control: true, mask: MASKED }
    } else {
        cpu
    }
}

/// The word that switching interrupts off hands back.
pub open spec fn saved_mask(cpu: Cpu) -> usize {
    if cpu.has_control {
        cpu.mask
    } else {
        NO_MASK
    }
}

/// The core after the mask word `reg` was put back.
pub open spec fn enabled(cpu: Cpu, reg: usize) -> Cpu {
    if cpu.has_control {
        Cpu { has_control: true, mask: reg }
    } else {
        cpu
    }
}

/// The core after `depth` guards were taken one inside the other.
pub open spec fn nested(cpu: Cpu, depth: nat) -> Cpu
    decreases depth,
{
    if depth == 0 {
        cpu
    } else {
        disabled(nested(cpu, (depth - 1) as nat))
    }
}

/// The words held by `depth` nested guards, the outermost first.
pub open spec fn nested_saves(cpu: Cpu, depth: nat) -> Seq<usize>
    decreases depth,
{
    if depth == 0 {
        Seq::empty()
    } else {
        nested_saves(cpu, (depth - 1) as nat).push(saved_mask(nested(cpu, (depth - 1) as nat)))
    }
}

/// The core after the guards holding `saves` were released, the innermost
/// (last) first.
pub open spec fn unwound(cpu: Cpu, saves: Seq<usize>) -> Cpu
    decreases saves.len(),
{
    if saves.len() == 0 {
        cpu
    } else {
        unwound(enabled(cpu, saves.last()), saves.drop_last())
    }
}

impl Cpu {
    /// A core with interrupts let through.
    pub fn new(has_control: bool) -> (cpu: Cpu)
        ensures
            cpu == (Cpu { has_control, mask: 0 }),
    {
        Cpu { has_control, mask: 0 }
    }

    /// No interrupt handler can run: interrupts are masked, or the target has
    /// none to mask.
    pub open spec fn exclusive(&self) -> bool {
        !self.has_control || self.mask != 0
    }

    /// Switches maskable interrupts off and returns the mask that was in
    /// force. Without interrupt control: changes nothing, returns
    /// [`NO_MASK`].
    pub fn interrupt_disable(&mut self) -> (reg: usize)
        ensures
            *final(self) == disabled(*old(self)),
            reg == saved_mask(*old(self)),
    {
        if self.has_control {
            let reg = self.mask;
            self.mask = MASKED;
            reg
        } else {
            NO_MASK
        }
    }

    /// Puts the mask word `reg` back. Without interrupt control: changes
    /// nothing.
    pub fn interrupt_enable(&mut self, reg: usize)
        ensures
            *final(self) == enabled(*old(self), reg),
    {
        if self.has_control {
            self.mask = reg;
        }
    }
}

impl InterruptFreeGuard {
    /// The mask word that the guard will put back.
    pub closed spec fn saved(&self) -> usize {
        self.0
    }

    /// Switches interrupts off and remembers the mask that was in force.
    pub fn new(cpu: &mut Cpu) -> (guard: Self)
        ensures
            *final(cpu) == disabled(*old(cpu)),
            guard.saved() == saved_mask(*old(cpu)),
            final(cpu).exclusive(),
    {
        InterruptFreeGuard(cpu.interrupt_disable())
    }

    /// Ends the critical section: puts back the mask that was in force when
    /// the guard was taken.
    pub fn release(self, cpu: &mut Cpu)
        ensures
            *final(cpu) == enabled(*old(cpu), self.saved()),
    {
        cpu.interrupt_enable(self.0)
    }
}

/// Taking a guard and releasing it leaves the core exactly as it was.
pub proof fn lemma_guard_round_trip(cpu: Cpu)
    ensures
        enabled(disabled(cpu), saved_mask(cpu)) == cpu,
{
}

/// Two guards, the second taken while the first is held and released before
/// it, leave the core exactly as it was.
pub proof fn lemma_guard_pair(cpu: Cpu)
    ensures
        ({
            let inner = disabled(cpu);
            let after_inner = enabled(disabled(inner), saved_mask(inner));
            &&& after_inner == inner
            &&& enabled(after_inner, saved_mask(cpu)) == cpu
        }),
{
}

/// Guards nested to any depth and released innermost first leave the core
/// exactly as it was.
pub proof fn lemma_guard_nesting(cpu: Cpu, depth: nat)
    ensures
        nested_saves(cpu, depth).len() == depth,
        unwound(nested(cpu, depth), nested_saves(cpu, depth)) == cpu,
    decreases depth,
{
    if depth > 0 {
        let below = (depth - 1) as nat;
        lemma_guard_nesting(cpu, below);
        let saves = nested_saves(cpu, depth);
        assert(saves.drop_last() =~= nested_saves(cpu, below));
        assert(saves.last() == saved_mask(nested(cpu, below)));
        lemma_guard_round_trip(nested(cpu, below));
    }
}

/// Without interrupt control, taking and releasing a guard changes nothing at
/// any point, and every guard holds [`NO_MASK`].
pub proof fn lemma_guard_without_control(cpu: Cpu, reg: usize)
    requires
        !cpu.has_control,
    ensures
        disabled(cpu) == cpu,
        saved_mask(cpu) == NO_MASK,
        enabled(cpu, reg) == cpu,
{
}

} // verus!
