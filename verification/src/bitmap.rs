//! The presence bitmap of the ready queues: one bit for each priority, set
//! while that priority has a thread ready to run.
//!
//! Two layouts answer the same question, "which is the lowest index whose
//! bit is set": one word of 32 bits, and a word of groups over one byte for
//! every eight priorities.

use vstd::prelude::*;
use vstd::std_specs::bits::{
    axiom_u32_trailing_zeros, axiom_u8_trailing_zeros, u32_trailing_zeros, u8_trailing_zeros,
};

verus! {

/// The largest number of priorities that the one-word layout can hold.
pub const FLAT_LIMIT: usize = 32;

/// The largest number of priorities that any layout can hold.
pub const PRIORITY_LIMIT: usize = 256;

/// Number of group bytes of the two-level layout.
pub const GROUPS: usize = 32;

/// How the presence bits are laid out.
#[derive(Clone, Copy, PartialEq, Eq, Debug, Structural)]
pub enum Strategy {
    /// One word, one bit for each priority.
    Flat,
    /// A word with one bit for each group of eight priorities, and one byte
    /// for each group.
    TwoLevel,
}

/// One presence bit for each of `slots` priorities.
#[derive(Debug)]
pub struct ReadyBitmap {
    strategy: Strategy,
    slots: usize,
    group: u32,
    table: Vec<u8>,
}

/// Bit `i` of the word `w`.
pub open spec fn bit32(w: u32, i: int) -> bool {
    0 <= i < 32 && (w >> (i as u32)) & 1u32 == 1u32
}

/// Bit `i` of the byte `b`.
pub open spec fn bit8(b: u8, i: int) -> bool {
    0 <= i < 8 && (b >> (i as u8)) & 1u8 == 1u8
}

/// The lowest index at or above `from` whose bit is set, found by looking at
/// one index after the other.
pub open spec fn scan(bits: Seq<bool>, from: int) -> Option<int>
    decreases bits.len() - from,
{
    if from < 0 || from >= bits.len() {
        None
    } else if bits[from] {
        Some(from)
    } else {
        scan(bits, from + 1)
    }
}

/// The lowest index whose bit is set.
pub open spec fn lowest(bits: Seq<bool>) -> Option<int> {
    scan(bits, 0)
}

/// What the scan finds: nothing exactly if no bit at or above `from` is set,
/// else the first set bit.
pub proof fn lemma_scan(bits: Seq<bool>, from: int)
    requires
        0 <= from,
    ensures
        scan(bits, from) is None <==> forall|i: int| from <= i < bits.len() ==> !bits[i],
        scan(bits, from) matches Some(p) ==> from <= p < bits.len() && bits[p] && forall|i: int|
            from <= i < p ==> !bits[i],
    decreases bits.len() - from,
{
    if from < bits.len() && !bits[from] {
        lemma_scan(bits, from + 1);
    }
}

/// An index whose bit is set and below which no bit is set is what the scan
/// finds.
pub proof fn lemma_lowest_is(bits: Seq<bool>, p: int)
    requires
        0 <= p < bits.len(),
        bits[p],
        forall|i: int| 0 <= i < p ==> !bits[i],
    ensures
        lowest(bits) == Some(p),
{
    lemma_scan(bits, 0);
}

/// Setting a clear bit and clearing it again gives the bits back as they
/// were; while it is set, the scan finds it or a lower one; once it is
/// cleared, the scan finds what it found before.
pub proof fn lemma_set_clear_round_trip(bits: Seq<bool>, i: int)
    requires
        0 <= i < bits.len(),
        !bits[i],
    ensures
        bits.update(i, true).update(i, false) == bits,
        lowest(bits.update(i, true)) == (match lowest(bits) {
            Some(p) => Some(if p < i { p } else { i }),
            None => Some(i),
        }),
        lowest(bits.update(i, true).update(i, false)) == lowest(bits),
{
    assert(bits.update(i, true).update(i, false) =~= bits);
    lemma_scan(bits, 0);
    let with = bits.update(i, true);
    match lowest(bits) {
        Some(p) => {
            let q = if p < i { p } else { i };
            lemma_lowest_is(with, q);
        },
        None => {
            lemma_lowest_is(with, i);
        },
    }
}

proof fn lemma_word_bits(w: u32, i: u32)
    requires
        i < 32,
    ensures
        forall|j: u32| j < 32 ==> #[trigger] ((0u32 >> j) & 1u32) == 0u32,
        forall|j: u32|
            j < 32 ==> #[trigger] (((w | (1u32 << i)) >> j) & 1u32) == (if j == i {
                1u32
            } else {
                (w >> j) & 1u32
            }),
        forall|j: u32|
            j < 32 ==> #[trigger] (((w & !(1u32 << i)) >> j) & 1u32) == (if j == i {
                0u32
            } else {
                (w >> j) & 1u32
            }),
{
    assert forall|j: u32| j < 32 implies #[trigger] ((0u32 >> j) & 1u32) == 0u32 by {
        assert((0u32 >> j) & 1u32 == 0u32) by (bit_vector);
    }
    assert forall|j: u32| j < 32 implies #[trigger] (((w | (1u32 << i)) >> j) & 1u32) == (if j
        == i {
        1u32
    } else {
        (w >> j) & 1u32
    }) by {
        assert(((w | (1u32 << i)) >> j) & 1u32 == (if j == i {
            1u32
        } else {
            (w >> j) & 1u32
        })) by (bit_vector)
            requires
                i < 32,
                j < 32,
        ;
    }
    assert forall|j: u32| j < 32 implies #[trigger] (((w & !(1u32 << i)) >> j) & 1u32) == (if j
        == i {
        0u32
    } else {
        (w >> j) & 1u32
    }) by {
        assert(((w & !(1u32 << i)) >> j) & 1u32 == (if j == i {
            0u32
        } else {
            (w >> j) & 1u32
        })) by (bit_vector)
            requires
                i < 32,
                j < 32,
        ;
    }
}

proof fn lemma_byte_bits(b: u8, i: u8)
    requires
        i < 8,
    ensures
        forall|j: u8| j < 8 ==> #[trigger] ((0u8 >> j) & 1u8) == 0u8,
        forall|j: u8|
            j < 8 ==> #[trigger] (((b | (1u8 << i)) >> j) & 1u8) == (if j == i {
                1u8
            } else {
                (b >> j) & 1u8
            }),
        forall|j: u8|
            j < 8 ==> #[trigger] (((b & !(1u8 << i)) >> j) & 1u8) == (if j == i {
                0u8
            } else {
                (b >> j) & 1u8
            }),
        (b | (1u8 << i)) != 0,
        forall|j: u8| j < 8 ==> #[trigger] ((b >> j) & 1u8) == 0u8 || (b >> j) & 1u8 == 1u8,
{
    assert forall|j: u8| j < 8 implies #[trigger] ((0u8 >> j) & 1u8) == 0u8 by {
        assert((0u8 >> j) & 1u8 == 0u8) by (bit_vector);
    }
    assert forall|j: u8| j < 8 implies #[trigger] (((b | (1u8 << i)) >> j) & 1u8) == (if j == i {
        1u8
    } else {
        (b >> j) & 1u8
    }) by {
        assert(((b | (1u8 << i)) >> j) & 1u8 == (if j == i {
            1u8
        } else {
            (b >> j) & 1u8
        })) by (bit_vector)
            requires
                i < 8,
                j < 8,
        ;
    }
    assert forall|j: u8| j < 8 implies #[trigger] (((b & !(1u8 << i)) >> j) & 1u8) == (if j == i {
        0u8
    } else {
        (b >> j) & 1u8
    }) by {
        assert(((b & !(1u8 << i)) >> j) & 1u8 == (if j == i {
            0u8
        } else {
            (b >> j) & 1u8
        })) by (bit_vector)
            requires
                i < 8,
                j < 8,
        ;
    }
    assert((b | (1u8 << i)) != 0) by (bit_vector)
        requires
            i < 8,
    ;
    assert forall|j: u8| j < 8 implies #[trigger] ((b >> j) & 1u8) == 0u8 || (b >> j) & 1u8
        == 1u8 by {
        assert((b >> j) & 1u8 == 0u8 || (b >> j) & 1u8 == 1u8) by (bit_vector);
    }
}

impl View for ReadyBitmap {
    type V = Seq<bool>;

    /// The presence bits, one for each priority.
    closed spec fn view(&self) -> Seq<bool> {
        Seq::new(self.slots as nat, |i: int| self.bit(i))
    }
}

impl ReadyBitmap {
    spec fn bit(&self, i: int) -> bool {
        match self.strategy {
            Strategy::Flat => bit32(self.group, i),
            Strategy::TwoLevel => bit8(self.table@[i / 8], i % 8),
        }
    }

    /// The layout holds only bits of its own priorities, and in the
    /// two-level layout a group's bit is set exactly while its byte is not
    /// zero.
    pub closed spec fn wf(&self) -> bool {
        match self.strategy {
            Strategy::Flat => {
                &&& self.slots <= FLAT_LIMIT
                &&& self.table@.len() == 0
                &&& forall|i: int| self.slots <= i < 32 ==> !#[trigger] self.bit(i)
            },
            Strategy::TwoLevel => {
                &&& self.slots <= PRIORITY_LIMIT
                &&& self.table@.len() == GROUPS
                &&& forall|g: int|
                    0 <= g < 32 ==> (bit32(self.group, g) <==> #[trigger] self.table@[g] != 0)
                &&& forall|i: int| self.slots <= i < 256 ==> !#[trigger] self.bit(i)
            },
        }
    }

    /// The layout in use.
    pub closed spec fn spec_strategy(&self) -> Strategy {
        self.strategy
    }

    /// The layout in use.
    #[verifier::when_used_as_spec(spec_strategy)]
    pub fn strategy(&self) -> (s: Strategy)
        ensures
            s == self.spec_strategy(),
    {
        self.strategy
    }

    /// Number of priorities.
    pub fn slots(&self) -> (n: usize)
        ensures
            n == self@.len(),
    {
        self.slots
    }

    /// A bitmap for `slots` priorities with every bit clear.
    pub fn new(slots: usize, strategy: Strategy) -> (map: Self)
        requires
            slots <= strategy.spec_capacity(),
        ensures
            map.wf(),
            map.spec_strategy() == strategy,
            map@ == Seq::new(slots as nat, |i: int| false),
    {
        let mut table: Vec<u8> = Vec::new();
        if let Strategy::TwoLevel = strategy {
            let mut g: usize = 0;
            while g < GROUPS
                invariant
                    g <= GROUPS,
                    table@.len() == g,
                    forall|k: int| 0 <= k < g ==> table@[k] == 0u8,
                decreases GROUPS - g,
            {
                table.push(0);
                g += 1;
            }
        }
        let map = ReadyBitmap { strategy, slots, group: 0, table };
        proof {
            lemma_word_bits(0, 0);
            lemma_byte_bits(0, 0);
            assert forall|i: int| 0 <= i < 256 implies !#[trigger] map.bit(i) by {
                let j = (i % 8) as u8;
                assert(((0u8 >> j) & 1u8) == 0u8);
                let k = i as u32;
                if i < 32 {
                    assert(((0u32 >> k) & 1u32) == 0u32);
                }
            }
            assert forall|g: int| 0 <= g < 32 implies !bit32(0u32, g) by {
                let k = g as u32;
                assert(((0u32 >> k) & 1u32) == 0u32);
            }
            assert(map@ =~= Seq::new(slots as nat, |i: int| false));
        }
        map
    }

    /// Whether the bit of priority `i` is set.
    pub fn get(&self, i: usize) -> (on: bool)
        requires
            self.wf(),
            i < self@.len(),
        ensures
            on == self@[i as int],
    {
        match self.strategy {
            Strategy::Flat => (self.group >> (i as u32)) & 1u32 == 1u32,
            Strategy::TwoLevel => (self.table[i / 8] >> ((i % 8) as u8)) & 1u8 == 1u8,
        }
    }

    /// Sets the bit of priority `i`.
    #[verifier::rlimit(40)]
    pub fn set(&mut self, i: usize)
        requires
            old(self).wf(),
            i < old(self)@.len(),
        ensures
            final(self).wf(),
            final(self).spec_strategy() == old(self).spec_strategy(),
            final(self)@ == old(self)@.update(i as int, true),
    {
        match self.strategy {
            Strategy::Flat => {
                proof {
                    lemma_word_bits(self.group, i as u32);
                }
                self.group = self.group | (1u32 << (i as u32));
                proof {
                    assert forall|j: int| 0 <= j < 32 implies #[trigger] self.bit(j) == (j == i
                        || old(self).bit(j)) by {
                        let k = j as u32;
                        assert((((old(self).group | (1u32 << (i as u32))) >> k) & 1u32) == (if k
                            == i as u32 {
                            1u32
                        } else {
                            (old(self).group >> k) & 1u32
                        }));
                    }
                }
            },
            Strategy::TwoLevel => {
                let g = i / 8;
                let b = i % 8;
                let byte = self.table[g];
                proof {
                    lemma_word_bits(self.group, g as u32);
                    lemma_byte_bits(byte, b as u8);
                }
                self.table[g] = byte | (1u8 << (b as u8));
                self.group = self.group | (1u32 << (g as u32));
                proof {
                    assert forall|j: int| 0 <= j < 256 implies #[trigger] self.bit(j) == (j == i
                        || old(self).bit(j)) by {
                        let k = (j % 8) as u8;
                        if j / 8 == g {
                            assert((((byte | (1u8 << (b as u8))) >> k) & 1u8) == (if k == b as u8 {
                                1u8
                            } else {
                                (byte >> k) & 1u8
                            }));
                        }
                    }
                    assert forall|h: int| 0 <= h < 32 implies (bit32(self.group, h)
                        <==> #[trigger] self.table@[h] != 0) by {
                        let k = h as u32;
                        assert((((old(self).group | (1u32 << (g as u32))) >> k) & 1u32) == (if k
                            == g as u32 {
                            1u32
                        } else {
                            (old(self).group >> k) & 1u32
                        }));
                        assert(bit32(old(self).group, h) <==> old(self).table@[h] != 0);
                    }
                }
            },
        }
        proof {
            assert(self@ =~= old(self)@.update(i as int, true));
        }
    }

    /// Clears the bit of priority `i`.
    #[verifier::rlimit(40)]
    pub fn clear(&mut self, i: usize)
        requires
            old(self).wf(),
            i < old(self)@.len(),
        ensures
            final(self).wf(),
            final(self).spec_strategy() == old(self).spec_strategy(),
            final(self)@ == old(self)@.update(i as int, false),
    {
        match self.strategy {
            Strategy::Flat => {
                proof {
                    lemma_word_bits(self.group, i as u32);
                }
                self.group = self.group & !(1u32 << (i as u32));
                proof {
                    assert forall|j: int| 0 <= j < 32 implies #[trigger] self.bit(j) == (j != i
                        && old(self).bit(j)) by {
                        let k = j as u32;
                        assert((((old(self).group & !(1u32 << (i as u32))) >> k) & 1u32) == (if k
                            == i as u32 {
                            0u32
                        } else {
                            (old(self).group >> k) & 1u32
                        }));
                    }
                }
            },
            Strategy::TwoLevel => {
                let g = i / 8;
                let b = i % 8;
                let byte = self.table[g];
                proof {
                    lemma_word_bits(self.group, g as u32);
                    lemma_byte_bits(byte, b as u8);
                }
                let cleared = byte & !(1u8 << (b as u8));
                self.table[g] = cleared;
                if cleared == 0 {
                    self.group = self.group & !(1u32 << (g as u32));
                }
                proof {
                    assert forall|j: int| 0 <= j < 256 implies #[trigger] self.bit(j) == (j != i
                        && old(self).bit(j)) by {
                        let k = (j % 8) as u8;
                        if j / 8 == g {
                            assert((((byte & !(1u8 << (b as u8))) >> k) & 1u8) == (if k == b as u8 {
                                0u8
                            } else {
                                (byte >> k) & 1u8
                            }));
                        }
                    }
                    assert forall|h: int| 0 <= h < 32 implies (bit32(self.group, h)
                        <==> #[trigger] self.table@[h] != 0) by {
                        let k = h as u32;
                        assert((((old(self).group & !(1u32 << (g as u32))) >> k) & 1u32) == (if k
                            == g as u32 {
                            0u32
                        } else {
                            (old(self).group >> k) & 1u32
                        }));
                        assert(bit32(old(self).group, h) <==> old(self).table@[h] != 0);
                        if h == g && cleared != 0 {
                            assert(byte != 0) by {
                                assert(byte & !(1u8 << (b as u8)) != 0 ==> byte != 0)
                                    by (bit_vector);
                            }
                        }
                    }
                }
            },
        }
        proof {
            assert(self@ =~= old(self)@.update(i as int, false));
        }
    }

    /// The lowest priority index whose bit is set: in the one-word layout
    /// the lowest set bit of the word, in the two-level layout eight times
    /// the lowest set group plus the lowest set bit of that group's byte.
    #[verifier::rlimit(40)]
    pub fn lowest_set(&self) -> (found: Option<usize>)
        requires
            self.wf(),
        ensures
            match found {
                Some(p) => lowest(self@) == Some(p as int),
                None => lowest(self@) is None,
            },
    {
        if self.group == 0 {
            proof {
                lemma_word_bits(0, 0);
                lemma_byte_bits(0, 0);
                lemma_scan(self@, 0);
                assert forall|j: int| 0 <= j < self@.len() implies !self@[j] by {
                    match self.strategy {
                        Strategy::Flat => {
                            let k = j as u32;
                            assert(((0u32 >> k) & 1u32) == 0u32);
                        },
                        Strategy::TwoLevel => {
                            let h = (j / 8) as u32;
                            assert(((0u32 >> h) & 1u32) == 0u32);
                            assert(!bit32(self.group, j / 8));
                            assert(self.table@[j / 8] == 0);
                            let k = (j % 8) as u8;
                            assert(((0u8 >> k) & 1u8) == 0u8);
                        },
                    }
                }
            }
            return None;
        }
        let number = self.group.trailing_zeros() as usize;
        proof {
            axiom_u32_trailing_zeros(self.group);
        }
        match self.strategy {
            Strategy::Flat => {
                proof {
                    assert(bit32(self.group, number as int));
                    assert(self.bit(number as int));
                    assert forall|j: int| 0 <= j < number implies !self@[j] by {
                        let k = j as u32;
                        assert((self.group >> k) & 1u32 == 0u32);
                    }
                    lemma_lowest_is(self@, number as int);
                }
                Some(number)
            },
            Strategy::TwoLevel => {
                let byte = self.table[number];
                let within = byte.trailing_zeros() as usize;
                proof {
                    axiom_u8_trailing_zeros(byte);
                    assert(bit32(self.group, number as int));
                    assert(self.table@[number as int] != 0);
                    let p = number * 8 + within;
                    assert(p / 8 == number && p % 8 == within);
                    assert(bit8(byte, within as int));
                    assert(self.bit(p as int));
                    assert forall|j: int| 0 <= j < p implies !self@[j] by {
                        if j / 8 < number {
                            let h = (j / 8) as u32;
                            assert((self.group >> h) & 1u32 == 0u32);
                            assert(!bit32(self.group, j / 8));
                            assert(self.table@[j / 8] == 0);
                            lemma_byte_bits(0, 0);
                            let k = (j % 8) as u8;
                            assert(((0u8 >> k) & 1u8) == 0u8);
                        } else {
                            let k = (j % 8) as u8;
                            assert((byte >> k) & 1u8 == 0u8);
                        }
                    }
                    lemma_lowest_is(self@, p as int);
                }
                Some(number * 8 + within)
            },
        }
    }
}

impl Strategy {
    /// The layout that goes with `priority_max` priorities: one word up to
    /// [`FLAT_LIMIT`], two levels above.
    pub fn for_priority_max(priority_max: usize) -> (s: Strategy)
        ensures
            s == (if priority_max > FLAT_LIMIT { Strategy::TwoLevel } else { Strategy::Flat }),
    {
        if priority_max > FLAT_LIMIT {
            Strategy::TwoLevel
        } else {
            Strategy::Flat
        }
    }

    /// The largest number of priorities that the layout can hold.
    pub open spec fn spec_capacity(self) -> usize {
        match self {
            Strategy::Flat => FLAT_LIMIT,
            Strategy::TwoLevel => PRIORITY_LIMIT,
        }
    }

    /// The largest number of priorities that the layout can hold.
    #[verifier::when_used_as_spec(spec_capacity)]
    pub fn capacity(self) -> (n: usize)
        ensures
            n == self.spec_capacity(),
    {
        match self {
            Strategy::Flat => FLAT_LIMIT,
            Strategy::TwoLevel => PRIORITY_LIMIT,
        }
    }
}

} // verus!
