//! The classes of kernel objects, the set of classes that a kernel is built
//! with, and the place of each class in the registry.

use vstd::prelude::*;

verus! {

/// Number of classes that can have a registry slot.
pub const CLASS_RANKS: usize = 10;

/// The bit of the type tag that marks an object whose storage belongs to the
/// caller.
pub const STATIC_FLAG: u8 = 0x80;

/// The class tag of a kernel object.
#[derive(Clone, Copy, PartialEq, Eq, Debug, Structural)]
pub enum ObjectClassType {
    /// The object is not used.
    Null,
    /// The object is a thread.
    Thread,
    /// The object is a semaphore.
    Semaphore,
    /// The object is a mutex.
    Mutex,
    /// The object is an event.
    Event,
    /// The object is a mail box.
    MailBox,
    /// The object is a message queue.
    MessageQueue,
    /// The object is a memory heap.
    MemHeap,
    /// The object is a memory pool.
    MemPool,
    /// The object is a device.
    Device,
    /// The object is a timer.
    Timer,
    /// The object is unknown.
    Unknown,
    /// The object is a static object.
    Static,
}

/// The place of a class among the registry slots. A class that the kernel is
/// built without has no place, and the classes behind it move up.
#[derive(Clone, Copy, PartialEq, Eq, Debug, Structural)]
pub enum ObjIdx {
    /// The object is a thread.
    Thread,
    /// The object is a semaphore.
    Semaphore,
    /// The object is a mutex.
    Mutex,
    /// The object is an event.
    Event,
    /// The object is a mail box.
    MailBox,
    /// The object is a message queue.
    MessageQueue,
    /// The object is a memory heap.
    MemHeap,
    /// The object is a memory pool.
    MemPool,
    /// The object is a device.
    Device,
    /// The object is a timer.
    Timer,
    /// The object is unknown. Its place is the number of slots.
    Unknown,
}

/// The classes that a kernel is built with. Threads and timers are always
/// there.
#[derive(Clone, Copy, PartialEq, Eq, Debug, Structural)]
pub struct ClassSet {
    /// Semaphores are compiled in.
    pub semaphore: bool,
    /// Mutexes are compiled in.
    pub mutex: bool,
    /// Events are compiled in.
    pub event: bool,
    /// Mail boxes are compiled in.
    pub mailbox: bool,
    /// Message queues are compiled in.
    pub message_queue: bool,
    /// Memory heaps are compiled in.
    pub mem_heap: bool,
    /// Memory pools are compiled in.
    pub mem_pool: bool,
    /// Devices are compiled in.
    pub device: bool,
}

impl ObjectClassType {
    /// The byte that stands for the class in an object's type tag.
    pub open spec fn spec_code(self) -> u8 {
        match self {
            ObjectClassType::Null => 0x00,
            ObjectClassType::Thread => 0x01,
            ObjectClassType::Semaphore => 0x02,
            ObjectClassType::Mutex => 0x03,
            ObjectClassType::Event => 0x04,
            ObjectClassType::MailBox => 0x05,
            ObjectClassType::MessageQueue => 0x06,
            ObjectClassType::MemHeap => 0x07,
            ObjectClassType::MemPool => 0x08,
            ObjectClassType::Device => 0x09,
            ObjectClassType::Timer => 0x0a,
            ObjectClassType::Unknown => 0x0c,
            ObjectClassType::Static => 0x80,
        }
    }

    /// The byte that stands for the class in an object's type tag.
    #[verifier::when_used_as_spec(spec_code)]
    pub fn code(self) -> (c: u8)
        ensures
            c == self.spec_code(),
    {
        match self {
            ObjectClassType::Null => 0x00,
            ObjectClassType::Thread => 0x01,
            ObjectClassType::Semaphore => 0x02,
            ObjectClassType::Mutex => 0x03,
            ObjectClassType::Event => 0x04,
            ObjectClassType::MailBox => 0x05,
            ObjectClassType::MessageQueue => 0x06,
            ObjectClassType::MemHeap => 0x07,
            ObjectClassType::MemPool => 0x08,
            ObjectClassType::Device => 0x09,
            ObjectClassType::Timer => 0x0a,
            ObjectClassType::Unknown => 0x0c,
            ObjectClassType::Static => 0x80,
        }
    }

    /// The class can have live objects: it is none of `Null`, `Unknown` and
    /// `Static`.
    pub open spec fn registrable(self) -> bool {
        1 <= self.spec_code() <= 0x0a
    }

    /// The type tag of a live object of the class: the class byte with
    /// [`STATIC_FLAG`] set.
    pub open spec fn tag(self) -> u8 {
        self.spec_code() | STATIC_FLAG
    }

    /// Tags of registrable classes are not zero, tell the classes apart, and
    /// give the class byte back once the flag is masked off.
    pub proof fn lemma_tag(self)
        requires
            self.registrable(),
        ensures
            self.tag() == self.spec_code() + 128,
            self.tag() & STATIC_FLAG != 0,
            self.tag() & !STATIC_FLAG == self.spec_code(),
    {
        let c = self.spec_code();
        assert(c <= 0x0a ==> (c | 0x80u8) == c + 128 && (c | 0x80u8) & 0x80u8 != 0 && (c | 0x80u8)
            & !0x80u8 == c) by (bit_vector);
    }
}

impl ObjIdx {
    /// Position of the enumerator in the full list of classes.
    pub open spec fn spec_rank(self) -> usize {
        match self {
            ObjIdx::Thread => 0,
            ObjIdx::Semaphore => 1,
            ObjIdx::Mutex => 2,
            ObjIdx::Event => 3,
            ObjIdx::MailBox => 4,
            ObjIdx::MessageQueue => 5,
            ObjIdx::MemHeap => 6,
            ObjIdx::MemPool => 7,
            ObjIdx::Device => 8,
            ObjIdx::Timer => 9,
            ObjIdx::Unknown => 10,
        }
    }

    /// Position of the enumerator in the full list of classes.
    #[verifier::when_used_as_spec(spec_rank)]
    pub fn rank(self) -> (r: usize)
        ensures
            r == self.spec_rank(),
    {
        match self {
            ObjIdx::Thread => 0,
            ObjIdx::Semaphore => 1,
            ObjIdx::Mutex => 2,
            ObjIdx::Event => 3,
            ObjIdx::MailBox => 4,
            ObjIdx::MessageQueue => 5,
            ObjIdx::MemHeap => 6,
            ObjIdx::MemPool => 7,
            ObjIdx::Device => 8,
            ObjIdx::Timer => 9,
            ObjIdx::Unknown => 10,
        }
    }

    /// The class at position `rank` of the full list; `Unknown` from
    /// [`CLASS_RANKS`] on.
    pub open spec fn spec_class_at(rank: usize) -> ObjectClassType {
        if rank == 0 {
            ObjectClassType::Thread
        } else if rank == 1 {
            ObjectClassType::Semaphore
        } else if rank == 2 {
            ObjectClassType::Mutex
        } else if rank == 3 {
            ObjectClassType::Event
        } else if rank == 4 {
            ObjectClassType::MailBox
        } else if rank == 5 {
            ObjectClassType::MessageQueue
        } else if rank == 6 {
            ObjectClassType::MemHeap
        } else if rank == 7 {
            ObjectClassType::MemPool
        } else if rank == 8 {
            ObjectClassType::Device
        } else if rank == 9 {
            ObjectClassType::Timer
        } else {
            ObjectClassType::Unknown
        }
    }

    /// The class at position `rank` of the full list; `Unknown` from
    /// [`CLASS_RANKS`] on.
    #[verifier::when_used_as_spec(spec_class_at)]
    pub fn class_at(rank: usize) -> (class: ObjectClassType)
        ensures
            class == Self::spec_class_at(rank),
    {
        if rank == 0 {
            ObjectClassType::Thread
        } else if rank == 1 {
            ObjectClassType::Semaphore
        } else if rank == 2 {
            ObjectClassType::Mutex
        } else if rank == 3 {
            ObjectClassType::Event
        } else if rank == 4 {
            ObjectClassType::MailBox
        } else if rank == 5 {
            ObjectClassType::MessageQueue
        } else if rank == 6 {
            ObjectClassType::MemHeap
        } else if rank == 7 {
            ObjectClassType::MemPool
        } else if rank == 8 {
            ObjectClassType::Device
        } else if rank == 9 {
            ObjectClassType::Timer
        } else {
            ObjectClassType::Unknown
        }
    }

    /// The class that the enumerator stands for.
    pub fn class(self) -> (class: ObjectClassType)
        ensures
            class == Self::spec_class_at(self.spec_rank()),
    {
        Self::class_at(self.rank())
    }

    /// The slot of the enumerator in a kernel built with `set`: the number
    /// of compiled-in classes before it. None for a class that is left out.
    pub fn slot(self, set: &ClassSet) -> (slot: Option<usize>)
        ensures
            slot == (if self == ObjIdx::Unknown || set.has(Self::spec_class_at(self.spec_rank())) {
                Some(set.classes_below(self.spec_rank() as int).len() as usize)
            } else {
                None
            }),
            self == ObjIdx::Unknown ==> slot == Some(set.classes().len() as usize),
            self != ObjIdx::Unknown ==> match slot {
                Some(s) => s < set.classes().len() && set.classes()[s as int]
                    == Self::spec_class_at(self.spec_rank()),
                None => !set.classes().contains(Self::spec_class_at(self.spec_rank())),
            },
    {
        let rank = self.rank();
        proof {
            set.lemma_classes_prefix(rank as int, CLASS_RANKS as int);
            set.lemma_classes();
        }
        if rank < CLASS_RANKS && !set.contains(Self::class_at(rank)) {
            return None;
        }
        let mut r: usize = 0;
        let mut n: usize = 0;
        while r < rank
            invariant
                r <= rank <= CLASS_RANKS,
                n == set.classes_below(r as int).len(),
                n <= r,
            decreases rank - r,
        {
            if set.contains(Self::class_at(r)) {
                n += 1;
            }
            r += 1;
        }
        Some(n)
    }
}

impl ClassSet {
    /// Every class compiled in.
    pub fn all() -> (set: ClassSet)
        ensures
            set == (ClassSet {
                semaphore: true,
                mutex: true,
                event: true,
                mailbox: true,
                message_queue: true,
                mem_heap: true,
                mem_pool: true,
                device: true,
            }),
    {
        ClassSet {
            semaphore: true,
            mutex: true,
            event: true,
            mailbox: true,
            message_queue: true,
            mem_heap: true,
            mem_pool: true,
            device: true,
        }
    }

    /// Only threads and timers compiled in.
    pub fn minimal() -> (set: ClassSet)
        ensures
            set == (ClassSet {
                semaphore: false,
                mutex: false,
                event: false,
                mailbox: false,
                message_queue: false,
                mem_heap: false,
                mem_pool: false,
                device: false,
            }),
    {
        ClassSet {
            semaphore: false,
            mutex: false,
            event: false,
            mailbox: false,
            message_queue: false,
            mem_heap: false,
            mem_pool: false,
            device: false,
        }
    }

    /// Whether `class` is compiled in.
    pub open spec fn has(&self, class: ObjectClassType) -> bool {
        match class {
            ObjectClassType::Thread => true,
            ObjectClassType::Semaphore => self.semaphore,
            ObjectClassType::Mutex => self.mutex,
            ObjectClassType::Event => self.event,
            ObjectClassType::MailBox => self.mailbox,
            ObjectClassType::MessageQueue => self.message_queue,
            ObjectClassType::MemHeap => self.mem_heap,
            ObjectClassType::MemPool => self.mem_pool,
            ObjectClassType::Device => self.device,
            ObjectClassType::Timer => true,
            _ => false,
        }
    }

    /// Whether `class` is compiled in.
    pub fn contains(&self, class: ObjectClassType) -> (on: bool)
        ensures
            on == self.has(class),
    {
        match class {
            ObjectClassType::Thread => true,
            ObjectClassType::Semaphore => self.semaphore,
            ObjectClassType::Mutex => self.mutex,
            ObjectClassType::Event => self.event,
            ObjectClassType::MailBox => self.mailbox,
            ObjectClassType::MessageQueue => self.message_queue,
            ObjectClassType::MemHeap => self.mem_heap,
            ObjectClassType::MemPool => self.mem_pool,
            ObjectClassType::Device => self.device,
            ObjectClassType::Timer => true,
            _ => false,
        }
    }

    /// The compiled-in classes among the first `rank` of the full list, in
    /// the order of that list.
    pub open spec fn classes_below(&self, rank: int) -> Seq<ObjectClassType>
        decreases rank,
    {
        if rank <= 0 {
            Seq::empty()
        } else {
            let before = self.classes_below(rank - 1);
            let class = ObjIdx::spec_class_at((rank - 1) as usize);
            if self.has(class) {
                before.push(class)
            } else {
                before
            }
        }
    }

    /// The compiled-in classes in slot order.
    pub open spec fn classes(&self) -> Seq<ObjectClassType> {
        self.classes_below(CLASS_RANKS as int)
    }

    /// The classes below a rank are the first of the classes below any
    /// higher rank, and a compiled-in class stands right behind them.
    pub proof fn lemma_classes_prefix(&self, rank: int, upto: int)
        requires
            0 <= rank <= upto,
        ensures
            self.classes_below(rank).len() <= rank,
            self.classes_below(rank).len() <= self.classes_below(upto).len(),
            self.classes_below(rank) == self.classes_below(upto).subrange(
                0,
                self.classes_below(rank).len() as int,
            ),
            rank < upto && self.has(ObjIdx::spec_class_at(rank as usize)) ==> self.classes_below(
                rank,
            ).len() < self.classes_below(upto).len() && self.classes_below(upto)[self.classes_below(
                rank,
            ).len() as int] == ObjIdx::spec_class_at(rank as usize),
        decreases upto,
    {
        if rank > 0 {
            self.lemma_classes_prefix(rank - 1, rank - 1);
        }
        if rank < upto {
            self.lemma_classes_prefix(rank, upto - 1);
            let below = self.classes_below(upto - 1);
            let full = self.classes_below(upto);
            assert(below == full.subrange(0, below.len() as int));
            assert(self.classes_below(rank) == full.subrange(
                0,
                self.classes_below(rank).len() as int,
            ));
        } else {
            assert(self.classes_below(rank) == self.classes_below(upto).subrange(
                0,
                self.classes_below(rank).len() as int,
            ));
        }
    }

    /// The classes with a slot are exactly the compiled-in classes, each
    /// once, and each registrable.
    pub proof fn lemma_classes(&self)
        ensures
            self.classes().no_duplicates(),
            forall|class: ObjectClassType| #[trigger]
                self.classes().contains(class) <==> self.has(class),
            forall|class: ObjectClassType| self.has(class) ==> class.registrable(),
    {
        self.lemma_classes_distinct(CLASS_RANKS as int);
        assert forall|class: ObjectClassType| #[trigger]
            self.classes().contains(class) implies self.has(class) by {
            let i = choose|i: int| 0 <= i < self.classes().len() && self.classes()[i] == class;
            assert(self.has(self.classes_below(CLASS_RANKS as int)[i]));
        }
        assert forall|class: ObjectClassType| self.has(class) implies #[trigger] self.classes().contains(
            class,
        ) by {
            assert(class.spec_code() <= 10);
        }
    }

    /// Every class among the first `rank` is registrable, compiled in, and
    /// there once.
    pub proof fn lemma_classes_distinct(&self, rank: int)
        requires
            0 <= rank <= CLASS_RANKS,
        ensures
            self.classes_below(rank).no_duplicates(),
            forall|i: int|
                0 <= i < self.classes_below(rank).len() ==> {
                    let class = #[trigger] self.classes_below(rank)[i];
                    &&& class.registrable()
                    &&& self.has(class)
                    &&& class.spec_code() <= rank
                },
            forall|class: ObjectClassType|
                self.has(class) && class.spec_code() <= rank ==> #[trigger] self.classes_below(
                    rank,
                ).contains(class),
        decreases rank,
    {
        if rank > 0 {
            self.lemma_classes_distinct(rank - 1);
            let before = self.classes_below(rank - 1);
            let class = ObjIdx::spec_class_at((rank - 1) as usize);
            assert(class.spec_code() == rank);
            if self.has(class) {
                let now = before.push(class);
                assert(now[before.len() as int] == class);
                assert forall|c: ObjectClassType|
                    self.has(c) && c.spec_code() <= rank implies #[trigger] now.contains(c) by {
                    if c.spec_code() == rank {
                        assert(c == class);
                        assert(now[before.len() as int] == c);
                    } else {
                        assert(before.contains(c));
                        let i = choose|i: int| 0 <= i < before.len() && before[i] == c;
                        assert(now[i] == c);
                    }
                }
            }
        }
    }
}

} // verus!
