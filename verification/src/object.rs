//! Kernel objects and the registry that tracks, for every compiled-in class,
//! the objects of that class that are live.
//!
//! An object's storage is a place in the registry's arena; the place is named
//! by a handle, which is also the position of the object's list node. The
//! registry never gives storage back: an object is registered and detached,
//! never freed.

pub use crate::class::{ClassSet, ObjIdx, ObjectClassType, CLASS_RANKS, STATIC_FLAG};
use crate::cpu::{lemma_guard_round_trip, Cpu, InterruptFreeGuard};
use crate::kernel::Kernel;
use crate::list::{lemma_index_of_distinct, lemma_without, without, Node, NodeArena};
use crate::scheduler::{LockNestedGuard, Scheduler};
use vstd::prelude::*;
use vstd::string::StringSliceAdditionalSpecFns;

verus! {

/// Width of the name field of an object, terminator included.
pub const NAME_MAX: usize = 8;

/// The size recorded for every class: none has a layout of its own.
pub const OBJECT_SIZE: usize = 0;

/// The record of a kernel object.
#[derive(Clone, Copy, PartialEq, Eq, Debug)]
pub struct Object {
    /// Name of the object: at most `NAME_MAX - 1` bytes and a zero byte.
    pub name: [u8; NAME_MAX],
    /// Type tag: zero while unused, else the class byte with the static flag.
    pub kind: u8,
    /// Transient flags.
    pub flag: u8,
    /// Position of the object's list node, which is the object's handle.
    pub list: usize,
}

/// Why an object was not registered.
#[derive(Clone, Copy, PartialEq, Eq, Debug, Structural)]
pub enum RegisterError {
    /// The kernel is built without the class.
    ClassAbsent,
    /// The storage already holds a live object.
    AlreadyRegistered,
}

/// The registry slot of one class.
#[derive(Clone, Copy, PartialEq, Eq, Debug)]
pub struct ObjectInformation {
    /// The class of the slot.
    pub class: ObjectClassType,
    /// Position of the sentinel node that heads the list of live objects.
    pub object_list: usize,
    /// Size of one object of the class.
    pub object_size: usize,
}

/// The registry: one slot for each compiled-in class, and the storage of
/// every object.
pub struct Registry {
    nodes: NodeArena,
    container: Vec<ObjectInformation>,
    objects: Vec<Object>,
}

/// Number of bytes of `bytes` before the first zero byte at or behind
/// `from`; all of them if there is none.
pub open spec fn c_len(bytes: Seq<u8>, from: int) -> int
    decreases bytes.len() - from,
{
    if from < 0 || from >= bytes.len() || bytes[from] == 0 {
        from
    } else {
        c_len(bytes, from + 1)
    }
}

/// The name that a name field holds: its bytes up to the first zero byte.
pub open spec fn stored_name(field: Seq<u8>) -> Seq<u8> {
    field.subrange(0, c_len(field, 0))
}

/// The name field after `name` was written to it: as much of `name` as fits
/// in front of a terminator, the terminator, and behind it what was there.
pub open spec fn named(field: Seq<u8>, name: Seq<u8>) -> Seq<u8> {
    let len = if name.len() < NAME_MAX - 1 {
        name.len() as int
    } else {
        NAME_MAX - 1
    };
    Seq::new(
        field.len(),
        |i: int|
            if i < len {
                name[i]
            } else if i == len {
                0u8
            } else {
                field[i]
            },
    )
}

/// Where the first zero byte stands.
pub proof fn lemma_c_len(bytes: Seq<u8>, from: int)
    requires
        0 <= from <= bytes.len(),
    ensures
        from <= c_len(bytes, from) <= bytes.len(),
        forall|i: int| from <= i < c_len(bytes, from) ==> bytes[i] != 0,
        c_len(bytes, from) < bytes.len() ==> bytes[c_len(bytes, from)] == 0,
    decreases bytes.len() - from,
{
    if from < bytes.len() && bytes[from] != 0 {
        lemma_c_len(bytes, from + 1);
    }
}

/// A position that holds zero and has no zero in front of it is where the
/// stored name ends.
pub proof fn lemma_c_len_is(bytes: Seq<u8>, end: int)
    requires
        0 <= end <= bytes.len(),
        forall|i: int| 0 <= i < end ==> bytes[i] != 0,
        end < bytes.len() ==> bytes[end] == 0,
    ensures
        c_len(bytes, 0) == end,
{
    lemma_c_len(bytes, 0);
}

impl Registry {
    /// The classes that have a slot, in slot order.
    pub closed spec fn classes(&self) -> Seq<ObjectClassType> {
        self.container@.map_values(|info: ObjectInformation| info.class)
    }

    /// The slot of `class`, if it has one.
    pub open spec fn slot_of(&self, class: ObjectClassType) -> Option<int> {
        if self.classes().contains(class) {
            Some(self.classes().index_of(class))
        } else {
            None
        }
    }

    /// The record of slot `slot`.
    pub closed spec fn info(&self, slot: int) -> ObjectInformation {
        self.container@[slot]
    }

    /// The handles of the live objects of `class`, the one registered last
    /// first. Empty for a class without a slot.
    pub closed spec fn members(&self, class: ObjectClassType) -> Seq<usize> {
        match self.slot_of(class) {
            Some(slot) => self.list(slot),
            None => Seq::empty(),
        }
    }

    /// The handles on the list of slot `slot`, the one registered last
    /// first.
    pub closed spec fn list(&self, slot: int) -> Seq<usize> {
        self.nodes.ring(slot as usize)
    }

    /// The first of `handles` from place `from` on whose object holds the
    /// name `name`.
    pub open spec fn first_named(&self, handles: Seq<usize>, name: Seq<u8>, from: int) -> Option<
        usize,
    >
        decreases handles.len() - from,
    {
        if from < 0 || from >= handles.len() {
            None
        } else if stored_name(self.object(handles[from]).name@) == name {
            Some(handles[from])
        } else {
            self.first_named(handles, name, from + 1)
        }
    }

    /// `handle` names storage of this registry.
    pub closed spec fn is_object(&self, handle: usize) -> bool {
        self.container@.len() <= handle < self.container@.len() + self.objects@.len()
    }

    /// The record held in the storage that `handle` names.
    pub closed spec fn object(&self, handle: usize) -> Object {
        self.objects@[handle - self.container@.len()]
    }

    /// Number of objects that the registry has storage for.
    pub closed spec fn object_count(&self) -> nat {
        self.objects@.len()
    }

    /// The handle that the next new storage will get.
    pub closed spec fn next_handle(&self) -> nat {
        self.container@.len() + self.objects@.len()
    }

    spec fn base(&self) -> int {
        self.container@.len() as int
    }

    spec fn lives_in(&self, k: int, c: usize) -> bool {
        &&& c < self.base()
        &&& self.container@[c as int].class.tag() == self.objects@[k].kind
        &&& self.nodes.ring(c).contains((self.base() + k) as usize)
    }

    spec fn object_ok(&self, k: int) -> bool {
        let o = self.objects@[k];
        &&& o.list == self.base() + k
        &&& if o.kind == 0 {
            self.nodes.detached((self.base() + k) as usize)
        } else {
            &&& c_len(o.name@, 0) < NAME_MAX
            &&& exists|c: usize| #[trigger] self.lives_in(k, c)
        }
    }

    spec fn member_ok(&self, c: usize, h: usize) -> bool {
        &&& self.base() <= h
        &&& self.objects@[h - self.base()].kind == self.container@[c as int].class.tag()
    }

    spec fn slot_ok(&self, c: usize) -> bool {
        &&& self.container@[c as int].object_list == c
        &&& self.container@[c as int].class.registrable()
        &&& forall|i: int|
            0 <= i < self.nodes.ring(c).len() ==> self.member_ok(
                c,
                #[trigger] self.nodes.ring(c)[i],
            )
    }

    /// Slots and storage agree: every slot heads the list of exactly the
    /// live objects of its class, and an object whose tag is zero is on no
    /// list.
    pub closed spec fn wf(&self) -> bool {
        &&& self.nodes.wf()
        &&& self.nodes.spec_len() == self.container@.len() + self.objects@.len()
        &&& self.classes().no_duplicates()
        &&& forall|c: usize| c < self.container@.len() ==> #[trigger] self.slot_ok(c)
        &&& forall|k: int| 0 <= k < self.objects@.len() ==> #[trigger] self.object_ok(k)
    }

    /// What the lists hold: members are distinct objects of the registry
    /// that carry the tag of the list's class and a terminated name, and an
    /// object that carries the tag of a class with a slot is on that list.
    pub proof fn lemma_members(&self, class: ObjectClassType)
        requires
            self.wf(),
        ensures
            self.members(class).no_duplicates(),
            self.slot_of(class) is Some ==> class.registrable(),
            forall|i: int|
                0 <= i < self.members(class).len() ==> {
                    let h = #[trigger] self.members(class)[i];
                    &&& self.is_object(h)
                    &&& self.object(h).kind == class.tag()
                    &&& self.object(h).list == h
                    &&& c_len(self.object(h).name@, 0) < NAME_MAX
                },
            forall|h: usize|
                self.is_object(h) && self.slot_of(class) is Some && self.object(h).kind
                    == class.tag() ==> self.members(class).contains(h),
    {
        self.nodes.lemma_len_fits();
        if let Some(slot) = self.slot_of(class) {
            assert(self.classes()[slot] == class);
            assert(self.slot_ok(slot as usize));
            self.nodes.lemma_ring_shape(slot as usize);
            class.lemma_tag();
            let ring = self.nodes.ring(slot as usize);
            assert forall|i: int| 0 <= i < ring.len() implies {
                let h = #[trigger] ring[i];
                &&& self.is_object(h)
                &&& self.object(h).kind == class.tag()
                &&& self.object(h).list == h
                &&& c_len(self.object(h).name@, 0) < NAME_MAX
            } by {
                let h = ring[i];
                assert(self.member_ok(slot as usize, h));
                assert(self.object_ok(h - self.base()));
            }
            assert forall|h: usize|
                self.is_object(h) && self.object(h).kind == class.tag() implies ring.contains(
                h,
            ) by {
                let k = h - self.base();
                assert(self.object_ok(k));
                let c = choose|c: usize| #[trigger] self.lives_in(k, c);
                assert(self.lives_in(k, c));
                assert(self.slot_ok(c));
                self.container@[c as int].class.lemma_tag();
                assert(self.classes()[c as int] == self.container@[c as int].class);
                assert(self.container@[c as int].class == class);
            }
        }
    }

    /// An object is on the list of one class at most, and an object whose
    /// tag is not zero is on the list of the class that its tag names.
    pub proof fn lemma_one_class(
        &self,
        handle: usize,
        first: ObjectClassType,
        second: ObjectClassType,
    )
        requires
            self.wf(),
        ensures
            self.members(first).contains(handle) && self.members(second).contains(handle)
                ==> first == second,
            self.is_object(handle) && self.object(handle).kind != 0 ==> exists|
                class: ObjectClassType,
            |
                self.slot_of(class) is Some && self.object(handle).kind == class.tag()
                    && #[trigger] self.members(class).contains(handle),
    {
        self.lemma_members(first);
        self.lemma_members(second);
        if self.members(first).contains(handle) && self.members(second).contains(handle) {
            let i = choose|i: int|
                0 <= i < self.members(first).len() && self.members(first)[i] == handle;
            let j = choose|j: int|
                0 <= j < self.members(second).len() && self.members(second)[j] == handle;
            assert(self.object(self.members(first)[i]).kind == first.tag());
            assert(self.object(self.members(second)[j]).kind == second.tag());
            first.lemma_tag();
            second.lemma_tag();
        }
        if self.is_object(handle) && self.object(handle).kind != 0 {
            let k = handle - self.base();
            assert(self.object_ok(k));
            let c = choose|c: usize| #[trigger] self.lives_in(k, c);
            let class = self.container@[c as int].class;
            assert(self.classes()[c as int] == class);
            assert(self.classes().contains(class));
            lemma_index_of_distinct_class(self.classes(), c as int);
            assert(self.members(class).contains(handle));
        }
    }

    /// An object whose tag is zero is on no list.
    pub proof fn lemma_unused_on_no_list(&self, class: ObjectClassType, handle: usize)
        requires
            self.wf(),
            self.is_object(handle),
            self.object(handle).kind == 0,
        ensures
            !self.members(class).contains(handle),
    {
        self.lemma_members(class);
        if self.members(class).contains(handle) {
            let i = choose|i: int|
                0 <= i < self.members(class).len() && self.members(class)[i] == handle;
            assert(self.object(self.members(class)[i]).kind == class.tag());
            class.lemma_tag();
        }
    }
}

impl Registry {
    /// A registry with one empty slot for each class of `set`.
    pub fn new(set: &ClassSet) -> (registry: Registry)
        ensures
            registry.wf(),
            registry.classes() == set.classes(),
            forall|class: ObjectClassType| #[trigger]
                registry.classes().contains(class) <==> set.has(class),
            registry.object_count() == 0,
            forall|class: ObjectClassType| #[trigger] registry.members(class).len() == 0,
            forall|slot: int|
                0 <= slot < registry.classes().len() ==> #[trigger] registry.info(slot)
                    == (ObjectInformation {
                    class: registry.classes()[slot],
                    object_list: slot as usize,
                    object_size: OBJECT_SIZE,
                }),
    {
        let mut nodes = NodeArena::new();
        let mut container: Vec<ObjectInformation> = Vec::new();
        let mut rank: usize = 0;
        while rank < CLASS_RANKS
            invariant
                rank <= CLASS_RANKS,
                nodes.wf(),
                nodes.spec_len() == container@.len(),
                container@.len() <= rank,
                container@.map_values(|info: ObjectInformation| info.class) == set.classes_below(
                    rank as int,
                ),
                forall|c: int|
                    0 <= c < container@.len() ==> (#[trigger] container@[c]).object_list == c
                        && container@[c].object_size == OBJECT_SIZE,
                forall|c: usize| c < container@.len() ==> #[trigger] nodes.detached(c),
            decreases CLASS_RANKS - rank,
        {
            let class = ObjIdx::class_at(rank);
            if set.contains(class) {
                let ghost before = container@;
                let ghost links = nodes;
                let head = Node::init(&mut nodes);
                container.push(
                    ObjectInformation { class, object_list: head, object_size: OBJECT_SIZE },
                );
                proof {
                    assert(container@.map_values(|info: ObjectInformation| info.class)
                        =~= before.map_values(|info: ObjectInformation| info.class).push(class));
                    assert forall|c: usize| c < container@.len() implies #[trigger] nodes.detached(
                        c,
                    ) by {
                        if c < before.len() {
                            assert(links.detached(c));
                        }
                    }
                }
            }
            rank += 1;
        }
        let registry = Registry { nodes, container, objects: Vec::new() };
        proof {
            set.lemma_classes_distinct(CLASS_RANKS as int);
            set.lemma_classes();
            assert forall|c: usize| c < registry.container@.len() implies #[trigger] registry.slot_ok(
                c,
            ) by {
                assert(registry.nodes.detached(c));
                assert(registry.classes()[c as int] == registry.container@[c as int].class);
            }
            assert forall|class: ObjectClassType| #[trigger] registry.members(class).len() == 0 by {
                if let Some(slot) = registry.slot_of(class) {
                    assert(registry.nodes.detached(slot as usize));
                }
            }
        }
        registry
    }

    /// Adds storage for one object, unused and on no list, and returns its
    /// handle. Nothing else changes.
    pub fn new_object(&mut self) -> (handle: usize)
        requires
            old(self).wf(),
        ensures
            final(self).wf(),
            handle == old(self).next_handle(),
            final(self).next_handle() == old(self).next_handle() + 1,
            final(self).object_count() == old(self).object_count() + 1,
            !old(self).is_object(handle),
            final(self).is_object(handle),
            final(self).object(handle).kind == 0,
            final(self).object(handle).flag == 0,
            final(self).object(handle).list == handle,
            final(self).object(handle).name@ == Seq::new(NAME_MAX as nat, |i: int| 0u8),
            final(self).same_slots(old(self)),
            final(self).same_objects(old(self)),
            forall|class: ObjectClassType| #[trigger]
                final(self).members(class) == old(self).members(class),
    {
        let handle = Node::init(&mut self.nodes);
        self.objects.push(Object::unused(handle));
        proof {
            assert forall|c: usize| c < self.container@.len() implies #[trigger] self.slot_ok(
                c,
            ) by {
                assert(old(self).slot_ok(c));
                assert(self.nodes.ring(c) == old(self).nodes.ring(c));
                assert forall|i: int| 0 <= i < self.nodes.ring(c).len() implies self.member_ok(
                    c,
                    #[trigger] self.nodes.ring(c)[i],
                ) by {
                    let h = old(self).nodes.ring(c)[i];
                    assert(old(self).member_ok(c, h));
                    old(self).nodes.lemma_ring_shape(c);
                }
            }
            assert forall|k: int| 0 <= k < self.objects@.len() implies #[trigger] self.object_ok(
                k,
            ) by {
                if k < old(self).objects@.len() {
                    assert(old(self).object_ok(k));
                    if old(self).objects@[k].kind != 0 {
                        let c = choose|c: usize| #[trigger] old(self).lives_in(k, c);
                        assert(old(self).lives_in(k, c));
                        assert(self.lives_in(k, c));
                    }
                }
            }
            assert forall|class: ObjectClassType| #[trigger]
                self.members(class) == old(self).members(class) by {
                if let Some(slot) = self.slot_of(class) {
                    assert(self.nodes.ring(slot as usize) == old(self).nodes.ring(slot as usize));
                }
            }
        }
        handle
    }

    /// Every object of `before` is an object of `self`.
    pub open spec fn extends(&self, before: &Registry) -> bool {
        forall|h: usize| before.is_object(h) ==> #[trigger] self.is_object(h)
    }

    /// Every object of `before` is an object of `self` with the same record.
    pub open spec fn same_objects(&self, before: &Registry) -> bool {
        &&& self.extends(before)
        &&& forall|h: usize| before.is_object(h) ==> #[trigger] self.object(h) == before.object(h)
    }

    /// Every object of `before` is an object of `self`, and but for `except`
    /// with the same record.
    pub open spec fn same_objects_but(&self, before: &Registry, except: usize) -> bool {
        &&& self.extends(before)
        &&& forall|h: usize|
            before.is_object(h) && h != except ==> #[trigger] self.object(h) == before.object(h)
    }

    /// Whether `object` can be registered in `class`: not in a class without
    /// a slot, and not while the storage holds a live object.
    pub open spec fn accepts(&self, object: usize, class: ObjectClassType) -> Result<
        (),
        RegisterError,
    > {
        if self.slot_of(class) is None {
            Err(RegisterError::ClassAbsent)
        } else if self.object(object).kind != 0 {
            Err(RegisterError::AlreadyRegistered)
        } else {
            Ok(())
        }
    }

    /// `self` is `before` with `object` registered in `class` under `name`:
    /// the object stands at the front of the list of the class, carries the
    /// tag of the class, no transient flag, and the name cut to fit in front
    /// of a terminator; every other list, object and slot is as it was.
    pub open spec fn registered(
        &self,
        before: &Registry,
        object: usize,
        class: ObjectClassType,
        name: Seq<u8>,
    ) -> bool {
        &&& self.members(class) == before.members(class).insert(0, object)
        &&& forall|other: ObjectClassType|
            other != class ==> #[trigger] self.members(other) == before.members(other)
        &&& self.object(object).name@ == named(before.object(object).name@, name)
        &&& self.object(object).kind == class.tag()
        &&& self.object(object).flag == 0
        &&& self.object(object).list == object
        &&& self.same_slots(before)
        &&& self.next_handle() == before.next_handle()
        &&& self.same_objects_but(before, object)
    }

    /// `self` is `before` with `object` detached: the object is on no list
    /// and its tag is zero; its name, its flags, every other object, the
    /// order of every list and every slot are as they were.
    pub open spec fn detached(&self, before: &Registry, object: usize) -> bool {
        &&& forall|class: ObjectClassType| #[trigger]
            self.members(class) == without(before.members(class), object)
        &&& self.object(object) == (Object { kind: 0, ..before.object(object) })
        &&& self.same_slots(before)
        &&& self.next_handle() == before.next_handle()
        &&& self.same_objects_but(before, object)
    }

    /// The two registries have the same slots.
    pub open spec fn same_slots(&self, other: &Registry) -> bool {
        &&& self.classes() == other.classes()
        &&& forall|slot: int|
            0 <= slot < self.classes().len() ==> #[trigger] self.info(slot) == other.info(slot)
    }

    /// The slot of `class`, found by looking at one slot after the other.
    pub fn slot(&self, class: ObjectClassType) -> (found: Option<usize>)
        requires
            self.wf(),
        ensures
            match found {
                Some(slot) => self.slot_of(class) == Some(slot as int),
                None => self.slot_of(class) is None,
            },
    {
        let mut c: usize = 0;
        while c < self.container.len()
            invariant
                c <= self.container@.len(),
                self.classes().no_duplicates(),
                forall|d: int| 0 <= d < c ==> #[trigger] self.classes()[d] != class,
            decreases self.container@.len() - c,
        {
            if self.container[c].class == class {
                proof {
                    assert(self.classes()[c as int] == class);
                    let i = self.classes().index_of(class);
                    assert(self.classes().contains(class));
                }
                return Some(c);
            }
            c += 1;
        }
        None
    }

    /// Number of objects on the list of slot `slot`, counted by walking it.
    /// Interrupts must be off.
    fn count(&self, cpu: &Cpu, slot: usize) -> (n: usize)
        requires
            cpu.exclusive(),
            self.wf(),
            slot < self.classes().len(),
        ensures
            n == self.list(slot as int).len(),
    {
        let mut it = Node::into_iter(&self.nodes, slot);
        let total = self.nodes.len();
        let mut n: usize = 0;
        proof {
            self.nodes.lemma_ring_shape(slot);
        }
        loop
            invariant_except_break
                it.index(&self.nodes) == n,
            invariant
                total == self.nodes.spec_len(),
                self.nodes.wf(),
                it.wf(&self.nodes),
                it.head() == slot,
                n <= self.nodes.ring(slot).len() < self.nodes.spec_len(),
            ensures
                n == self.nodes.ring(slot).len(),
            decreases self.nodes.ring(slot).len() - n,
        {
            match it.next(&self.nodes) {
                Some(_) => {
                    n += 1;
                },
                None => {
                    break ;
                },
            }
        }
        n
    }

    /// Whether `handle` is on the list of slot `slot`, found by walking it.
    /// The scheduler lock must be held and interrupts must be off.
    fn holds(&self, sched: &Scheduler, cpu: &Cpu, slot: usize, handle: usize) -> (found: bool)
        requires
            sched.lock_nest() > 0,
            cpu.exclusive(),
            self.wf(),
            slot < self.classes().len(),
        ensures
            found == self.list(slot as int).contains(handle),
    {
        let mut it = Node::into_iter(&self.nodes, slot);
        let ghost ring = self.nodes.ring(slot);
        let ghost mut n: int = 0;
        loop
            invariant_except_break
                it.index(&self.nodes) == n,
            invariant
                self.nodes.wf(),
                it.wf(&self.nodes),
                it.head() == slot,
                ring == self.nodes.ring(slot),
                0 <= n <= ring.len(),
                forall|i: int| 0 <= i < n ==> ring[i] != handle,
            ensures
                !ring.contains(handle),
            decreases ring.len() - n,
        {
            match it.next(&self.nodes) {
                Some(member) => {
                    if member == handle {
                        return true;
                    }
                    proof {
                        n = n + 1;
                    }
                },
                None => {
                    break ;
                },
            }
        }
        false
    }

    /// The first object on the list of slot `slot` that holds the name
    /// `query`, found by walking the list. The scheduler lock must be held
    /// and interrupts must be off.
    fn lookup(&self, sched: &Scheduler, cpu: &Cpu, slot: usize, query: &[u8]) -> (found: Option<
        usize,
    >)
        requires
            sched.lock_nest() > 0,
            cpu.exclusive(),
            self.wf(),
            slot < self.classes().len(),
        ensures
            found == self.first_named(self.list(slot as int), query@, 0),
    {
        let mut it = Node::into_iter(&self.nodes, slot);
        let ghost ring = self.nodes.ring(slot);
        let ghost mut n: int = 0;
        loop
            invariant_except_break
                it.index(&self.nodes) == n,
            invariant
                self.wf(),
                slot < self.classes().len(),
                it.wf(&self.nodes),
                it.head() == slot,
                ring == self.nodes.ring(slot),
                0 <= n <= ring.len(),
                self.first_named(ring, query@, 0) == self.first_named(ring, query@, n),
            ensures
                self.first_named(ring, query@, 0) is None,
            decreases ring.len() - n,
        {
            match it.next(&self.nodes) {
                Some(member) => {
                    proof {
                        assert(n < ring.len());
                        assert(member == ring[n]);
                        assert(self.slot_ok(slot));
                        assert(self.member_ok(slot, self.nodes.ring(slot)[n]));
                    }
                    if self.objects[member - self.container.len()].name_is(query) {
                        return Some(member);
                    }
                    proof {
                        n = n + 1;
                    }
                },
                None => {
                    break ;
                },
            }
        }
        None
    }

    /// Copies the records of the objects on the list of slot `slot` to the
    /// front of `buf`, in list order, as many as `buf` has room for, and
    /// returns how many were copied. Interrupts must be off.
    fn snapshot(&self, cpu: &Cpu, slot: usize, buf: &mut Vec<Object>) -> (n: usize)
        requires
            cpu.exclusive(),
            self.wf(),
            slot < self.classes().len(),
        ensures
            final(buf)@.len() == old(buf)@.len(),
            n == (if old(buf)@.len() < self.list(slot as int).len() {
                old(buf)@.len()
            } else {
                self.list(slot as int).len()
            }),
            forall|i: int|
                0 <= i < n ==> #[trigger] final(buf)@[i] == self.object(self.list(slot as int)[i]),
            forall|i: int| n <= i < old(buf)@.len() ==> #[trigger] final(buf)@[i] == old(buf)@[i],
    {
        let mut it = Node::into_iter(&self.nodes, slot);
        let ghost ring = self.nodes.ring(slot);
        let mut n: usize = 0;
        proof {
            self.nodes.lemma_ring_shape(slot);
        }
        while n < buf.len()
            invariant_except_break
                it.index(&self.nodes) == n,
            invariant
                self.wf(),
                slot < self.classes().len(),
                it.wf(&self.nodes),
                it.head() == slot,
                ring == self.nodes.ring(slot),
                n <= ring.len(),
                n <= buf@.len(),
                buf@.len() == old(buf)@.len(),
                forall|i: int| 0 <= i < n ==> #[trigger] buf@[i] == self.object(ring[i]),
                forall|i: int| n <= i < old(buf)@.len() ==> #[trigger] buf@[i] == old(buf)@[i],
            ensures
                n == ring.len() || n == buf@.len(),
                n <= ring.len(),
                n <= buf@.len(),
                buf@.len() == old(buf)@.len(),
                forall|i: int| 0 <= i < n ==> #[trigger] buf@[i] == self.object(ring[i]),
                forall|i: int| n <= i < old(buf)@.len() ==> #[trigger] buf@[i] == old(buf)@[i],
            decreases buf@.len() - n,
        {
            match it.next(&self.nodes) {
                Some(member) => {
                    proof {
                        let i = n as int;
                        assert(0 <= i < ring.len());
                        assert(member == ring[i]);
                        assert(self.slot_ok(slot));
                        assert(self.member_ok(slot, self.nodes.ring(slot)[i]));
                    }
                    buf[n] = self.objects[member - self.container.len()];
                    n += 1;
                },
                None => {
                    break ;
                },
            }
        }
        n
    }
}

impl Registry {
    spec fn pending_ok(&self, handle: usize, c: usize) -> bool {
        let o = self.objects@[handle - self.base()];
        &&& o.list == handle
        &&& o.kind == self.container@[c as int].class.tag()
        &&& c_len(o.name@, 0) < NAME_MAX
        &&& self.nodes.detached(handle)
    }

    /// As [`Registry::wf`], but that the object `handle` already carries the
    /// tag of slot `slot` and is not yet on its list.
    spec fn pending(&self, handle: usize, slot: usize) -> bool {
        &&& self.nodes.wf()
        &&& self.nodes.spec_len() == self.container@.len() + self.objects@.len()
        &&& self.classes().no_duplicates()
        &&& slot < self.container@.len()
        &&& self.container@.len() <= handle < self.nodes.spec_len()
        &&& forall|c: usize| c < self.container@.len() ==> #[trigger] self.slot_ok(c)
        &&& forall|k: int|
            0 <= k < self.objects@.len() && k != handle - self.base() ==> #[trigger] self.object_ok(
                k,
            )
        &&& self.pending_ok(handle, slot)
    }

    /// Writes the header of the unused object `handle` for slot `slot`: the
    /// name, cut to fit in front of a terminator, the tag of the slot's
    /// class, and no transient flag. The object is not yet on the list.
    #[verifier::rlimit(40)]
    fn set_header(&mut self, handle: usize, slot: usize, name: &[u8])
        requires
            old(self).wf(),
            old(self).is_object(handle),
            old(self).object(handle).kind == 0,
            slot < old(self).classes().len(),
        ensures
            final(self).pending(handle, slot),
            final(self).same_slots(old(self)),
            final(self).next_handle() == old(self).next_handle(),
            final(self).object(handle) == (Object {
                name: final(self).object(handle).name,
                kind: old(self).classes()[slot as int].tag(),
                flag: 0,
                list: handle,
            }),
            final(self).object(handle).name@ == named(old(self).object(handle).name@, name@),
            final(self).same_objects_but(old(self), handle),
            forall|c: int| #[trigger] final(self).list(c) == old(self).list(c),
    {
        let k = handle - self.container.len();
        let tag = self.container[slot].class.code() | STATIC_FLAG;
        let mut record = self.objects[k];
        let len = if name.len() < NAME_MAX - 1 {
            name.len()
        } else {
            NAME_MAX - 1
        };
        proof {
            assert(old(self).object_ok(k as int));
        }
        let mut i: usize = 0;
        while i < len
            invariant
                i <= len < NAME_MAX,
                len <= name@.len(),
                k < old(self).objects@.len(),
                record.name@.len() == NAME_MAX,
                record.kind == old(self).objects@[k as int].kind,
                record.flag == old(self).objects@[k as int].flag,
                record.list == old(self).objects@[k as int].list,
                forall|j: int| 0 <= j < i ==> #[trigger] record.name@[j] == name@[j],
                forall|j: int|
                    i <= j < NAME_MAX ==> #[trigger] record.name@[j] == old(
                        self,
                    ).objects@[k as int].name@[j],
            decreases len - i,
        {
            record.name[i] = name[i];
            i += 1;
        }
        record.name[len] = 0;
        record.kind = tag;
        record.flag = 0;
        self.objects[k] = record;
        proof {
            assert(record.name@ =~= named(old(self).objects@[k as int].name@, name@));
            assert(self.objects@ =~= old(self).objects@.update(k as int, record));
            assert(self.classes() =~= old(self).classes());
            assert(self.classes()[slot as int] == self.container@[slot as int].class);
            assert(c_len(record.name@, 0) < NAME_MAX) by {
                lemma_c_len(record.name@, 0);
                assert(record.name@[len as int] == 0);
            }
            assert forall|c: usize| c < self.container@.len() implies #[trigger] self.slot_ok(
                c,
            ) by {
                assert(old(self).slot_ok(c));
                assert forall|i: int| 0 <= i < self.nodes.ring(c).len() implies self.member_ok(
                    c,
                    #[trigger] self.nodes.ring(c)[i],
                ) by {
                    let h = old(self).nodes.ring(c)[i];
                    assert(old(self).member_ok(c, h));
                    old(self).container@[c as int].class.lemma_tag();
                    old(self).nodes.lemma_ring_shape(c);
                    assert(h != handle);
                    assert(self.objects@[h - self.base()] == old(self).objects@[h - self.base()]);
                }
            }
            assert forall|j: int|
                0 <= j < self.objects@.len() && j != handle - self.base() implies #[trigger] self.object_ok(
                j,
            ) by {
                assert(old(self).object_ok(j));
                if old(self).objects@[j].kind != 0 {
                    let c = choose|c: usize| #[trigger] old(self).lives_in(j, c);
                    assert(old(self).lives_in(j, c));
                    assert(self.lives_in(j, c));
                }
            }
        }
    }

    /// Puts the object `handle`, whose header is written, at the front of
    /// the list of slot `slot`. Interrupts must be off.
    #[verifier::rlimit(40)]
    fn link(&mut self, cpu: &Cpu, slot: usize, handle: usize)
        requires
            cpu.exclusive(),
            old(self).pending(handle, slot),
        ensures
            final(self).wf(),
            final(self).same_slots(old(self)),
            final(self).next_handle() == old(self).next_handle(),
            final(self).list(slot as int) == old(self).list(slot as int).insert(0, handle),
            forall|c: int|
                0 <= c < old(self).classes().len() && c != slot ==> #[trigger] final(self).list(c)
                    == old(self).list(c),
            final(self).same_objects(old(self)),
    {
        proof {
            self.nodes.lemma_len_fits();
        }
        Node::insert(&mut self.nodes, slot, handle);
        proof {
            let k = handle - self.base();
            assert(self.classes() =~= old(self).classes());
            assert forall|c: usize| c < self.container@.len() && c != slot implies self.nodes.ring(
                c,
            ) == old(self).nodes.ring(c) by {
                assert(old(self).slot_ok(c));
                if old(self).nodes.ring(c).contains(slot) {
                    let i = choose|i: int|
                        0 <= i < old(self).nodes.ring(c).len() && old(self).nodes.ring(c)[i]
                            == slot;
                    assert(old(self).member_ok(c, old(self).nodes.ring(c)[i]));
                }
            }
            assert forall|c: usize| c < self.container@.len() implies #[trigger] self.slot_ok(
                c,
            ) by {
                assert(old(self).slot_ok(c));
                let before = old(self).nodes.ring(c);
                assert forall|i: int| 0 <= i < self.nodes.ring(c).len() implies self.member_ok(
                    c,
                    #[trigger] self.nodes.ring(c)[i],
                ) by {
                    if c == slot {
                        if i > 0 {
                            assert(self.nodes.ring(c)[i] == before[i - 1]);
                            assert(old(self).member_ok(c, before[i - 1]));
                        }
                    } else {
                        assert(old(self).member_ok(c, before[i]));
                    }
                }
            }
            assert forall|j: int| 0 <= j < self.objects@.len() implies #[trigger] self.object_ok(
                j,
            ) by {
                if j == k {
                    assert(old(self).slot_ok(slot));
                    old(self).container@[slot as int].class.lemma_tag();
                    assert(old(self).pending_ok(handle, slot));
                    assert(self.nodes.ring(slot)[0] == handle);
                    assert(self.lives_in(j, slot));
                } else {
                    assert(old(self).object_ok(j));
                    let hj = (self.base() + j) as usize;
                    if old(self).objects@[j].kind != 0 {
                        let c = choose|c: usize| #[trigger] old(self).lives_in(j, c);
                        assert(old(self).lives_in(j, c));
                        let before = old(self).nodes.ring(c);
                        let i = choose|i: int| 0 <= i < before.len() && before[i] == hj;
                        if c == slot {
                            assert(self.nodes.ring(c)[i + 1] == hj);
                        }
                        assert(self.lives_in(j, c));
                    } else {
                        assert(old(self).nodes.detached(hj));
                        if old(self).nodes.ring(hj).contains(slot) {
                        }
                    }
                }
            }
        }
    }

    /// Clears the tag of the object `handle` and takes it off the list that
    /// holds it, if one does. Interrupts must be off.
    #[verifier::rlimit(40)]
    fn unlink(&mut self, cpu: &Cpu, handle: usize)
        requires
            cpu.exclusive(),
            old(self).wf(),
            old(self).is_object(handle),
        ensures
            final(self).wf(),
            final(self).same_slots(old(self)),
            final(self).next_handle() == old(self).next_handle(),
            forall|c: int|
                0 <= c < old(self).classes().len() ==> #[trigger] final(self).list(c) == without(
                    old(self).list(c),
                    handle,
                ),
            final(self).object(handle) == (Object { kind: 0, ..old(self).object(handle) }),
            final(self).same_objects_but(old(self), handle),
    {
        let k = handle - self.container.len();
        proof {
            self.nodes.lemma_len_fits();
            assert(old(self).object_ok(k as int));
        }
        self.objects[k].kind = 0;
        Node::remove(&mut self.nodes, handle);
        proof {
            assert(self.classes() =~= old(self).classes());
            assert forall|c: usize| c < self.container@.len() implies #[trigger] self.slot_ok(
                c,
            ) by {
                assert(old(self).slot_ok(c));
                let before = old(self).nodes.ring(c);
                old(self).nodes.lemma_ring_shape(c);
                lemma_without(before, handle);
                assert forall|i: int| 0 <= i < self.nodes.ring(c).len() implies self.member_ok(
                    c,
                    #[trigger] self.nodes.ring(c)[i],
                ) by {
                    let h = self.nodes.ring(c)[i];
                    assert(without(before, handle).contains(h));
                    assert(before.contains(h));
                    let i0 = choose|i0: int| 0 <= i0 < before.len() && before[i0] == h;
                    assert(old(self).member_ok(c, before[i0]));
                }
            }
            assert forall|j: int| 0 <= j < self.objects@.len() implies #[trigger] self.object_ok(
                j,
            ) by {
                if j != k {
                    assert(old(self).object_ok(j));
                    let hj = (self.base() + j) as usize;
                    if old(self).objects@[j].kind != 0 {
                        let c = choose|c: usize| #[trigger] old(self).lives_in(j, c);
                        assert(old(self).lives_in(j, c));
                        old(self).nodes.lemma_ring_shape(c);
                        lemma_without(old(self).nodes.ring(c), handle);
                        assert(self.lives_in(j, c));
                    } else {
                        old(self).nodes.lemma_ring_shape(hj);
                        lemma_without(old(self).nodes.ring(hj), handle);
                    }
                }
            }
        }
    }
}

/// In a sequence of classes without duplicates a class is found where it
/// stands.
proof fn lemma_index_of_distinct_class(classes: Seq<ObjectClassType>, k: int)
    requires
        classes.no_duplicates(),
        0 <= k < classes.len(),
    ensures
        classes.index_of(classes[k]) == k,
{
    let i = classes.index_of(classes[k]);
    assert(classes.contains(classes[k]));
    assert(0 <= i < classes.len() && classes[i] == classes[k]);
}

/// Registering an object makes the list of its class one longer, and
/// detaching it again gives the list back as it was.
pub proof fn lemma_register_then_detach(members: Seq<usize>, object: usize)
    requires
        members.no_duplicates(),
        !members.contains(object),
    ensures
        members.insert(0, object).len() == members.len() + 1,
        members.insert(0, object).no_duplicates(),
        without(members.insert(0, object), object) == members,
        without(members.insert(0, object), object).len() == members.len(),
{
    let longer = members.insert(0, object);
    assert(longer[0] == object);
    assert forall|i: int, j: int| 0 <= i < longer.len() && 0 <= j < longer.len() && i != j implies longer[i]
        != longer[j] by {
        if i > 0 {
            assert(members.contains(members[i - 1]));
        }
        if j > 0 {
            assert(members.contains(members[j - 1]));
        }
    }
    lemma_index_of_distinct(longer, 0);
    assert(longer.remove(0) =~= members);
}

/// Registering a first object, then a second, then detaching the first
/// leaves the list as if only the second had been registered.
pub proof fn lemma_register_two_detach_first(members: Seq<usize>, first: usize, second: usize)
    requires
        members.no_duplicates(),
        !members.contains(first),
        !members.contains(second),
        first != second,
    ensures
        members.insert(0, first).insert(0, second)[0] == second,
        members.insert(0, first).insert(0, second)[1] == first,
        without(members.insert(0, first).insert(0, second), first) == members.insert(0, second),
{
    let one = members.insert(0, first);
    let two = one.insert(0, second);
    lemma_register_then_detach(members, first);
    assert(!one.contains(second)) by {
        if one.contains(second) {
            let i = choose|i: int| 0 <= i < one.len() && one[i] == second;
            if i > 0 {
                assert(members.contains(members[i - 1]));
            }
        }
    }
    lemma_register_then_detach(one, second);
    assert(two[1] == first);
    lemma_index_of_distinct(two, 1);
    assert(two.remove(1) =~= members.insert(0, second));
}

/// Writing a name never changes the width of the field. The field then
/// holds the first `NAME_MAX - 1` bytes of the name, or all of it if it is
/// shorter, as far as they are free of zero bytes.
pub proof fn lemma_named(field: Seq<u8>, name: Seq<u8>)
    requires
        field.len() == NAME_MAX,
    ensures
        named(field, name).len() == field.len(),
        c_len(named(field, name), 0) < NAME_MAX,
        ({
            let kept = if name.len() < NAME_MAX - 1 {
                name.len() as int
            } else {
                NAME_MAX - 1
            };
            &&& named(field, name)[kept] == 0
            &&& forall|i: int| kept < i < NAME_MAX ==> named(field, name)[i] == field[i]
            &&& (forall|i: int| 0 <= i < kept ==> name[i] != 0) ==> stored_name(
                named(field, name),
            ) == name.subrange(0, kept)
        }),
{
    let kept = if name.len() < NAME_MAX - 1 {
        name.len() as int
    } else {
        NAME_MAX - 1
    };
    let written = named(field, name);
    lemma_c_len(written, 0);
    assert(written[kept] == 0);
    if forall|i: int| 0 <= i < kept ==> name[i] != 0 {
        lemma_c_len_is(written, kept);
        assert(stored_name(written) =~= name.subrange(0, kept));
    }
}

impl Registry {
    /// A class without a slot has no live object.
    pub proof fn lemma_absent_class(&self, class: ObjectClassType)
        requires
            self.slot_of(class) is None,
        ensures
            self.members(class).len() == 0,
    {
    }

    /// What a search by name finds: the first handle, from `from` on, whose
    /// object holds the name; nothing exactly if no such object holds it.
    pub proof fn lemma_first_named(&self, handles: Seq<usize>, name: Seq<u8>, from: int)
        requires
            0 <= from,
        ensures
            match self.first_named(handles, name, from) {
                Some(h) => exists|i: int|
                    from <= i < handles.len() && handles[i] == h && stored_name(
                        self.object(handles[i]).name@,
                    ) == name && forall|j: int|
                        from <= j < i ==> stored_name(self.object(#[trigger] handles[j]).name@)
                            != name,
                None => forall|i: int|
                    from <= i < handles.len() ==> stored_name(
                        self.object(#[trigger] handles[i]).name@,
                    ) != name,
            },
        decreases handles.len() - from,
    {
        if from < handles.len() {
            if stored_name(self.object(handles[from]).name@) == name {
                assert(from <= from < handles.len() && handles[from] == handles[from]);
            } else {
                self.lemma_first_named(handles, name, from + 1);
                match self.first_named(handles, name, from + 1) {
                    Some(h) => {
                        let i = choose|i: int|
                            from + 1 <= i < handles.len() && handles[i] == h && stored_name(
                                self.object(handles[i]).name@,
                            ) == name && forall|j: int|
                                from + 1 <= j < i ==> stored_name(
                                    self.object(#[trigger] handles[j]).name@,
                                ) != name;
                        assert(from <= i < handles.len() && handles[i] == h && stored_name(
                            self.object(handles[i]).name@,
                        ) == name && forall|j: int|
                            from <= j < i ==> stored_name(self.object(#[trigger] handles[j]).name@)
                                != name);
                    },
                    None => {},
                }
            }
        }
    }

    /// A search in a class that has no live object, or no slot, finds
    /// nothing, whatever the name.
    pub proof fn lemma_find_nothing(&self, class: ObjectClassType, name: Seq<u8>)
        requires
            self.slot_of(class) is None || self.members(class).len() == 0,
        ensures
            self.first_named(self.members(class), name, 0) is None,
    {
    }
}

impl Registry {
    /// In every class with a slot, registering an unused object makes the
    /// count of the class one higher and leaves the other counts, and
    /// detaching the object again gives every list back as it was.
    pub proof fn lemma_count_round_trip(
        &self,
        with: &Registry,
        after: &Registry,
        object: usize,
        class: ObjectClassType,
        name: Seq<u8>,
    )
        requires
            self.wf(),
            self.is_object(object),
            self.accepts(object, class) is Ok,
            with.registered(self, object, class, name),
            after.detached(with, object),
        ensures
            with.members(class).len() == self.members(class).len() + 1,
            forall|other: ObjectClassType|
                other != class ==> #[trigger] with.members(other).len() == self.members(
                    other,
                ).len(),
            forall|any: ObjectClassType| #[trigger] after.members(any) == self.members(any),
            forall|any: ObjectClassType| #[trigger]
                after.members(any).len() == self.members(any).len(),
    {
        assert forall|any: ObjectClassType| #[trigger] after.members(any) == self.members(any) by {
            self.lemma_members(any);
            self.lemma_unused_on_no_list(any, object);
            if any == class {
                lemma_register_then_detach(self.members(class), object);
            } else {
                lemma_without(self.members(any), object);
            }
        }
    }

    /// An object that was just registered under a name that fits the field
    /// and holds no zero byte is what a search for that name in its class
    /// finds.
    pub proof fn lemma_found_after_registering(
        &self,
        before: &Registry,
        object: usize,
        class: ObjectClassType,
        name: Seq<u8>,
    )
        requires
            self.registered(before, object, class, name),
            name.len() < NAME_MAX,
            forall|i: int| 0 <= i < name.len() ==> name[i] != 0,
        ensures
            self.first_named(self.members(class), name, 0) == Some(object),
    {
        let members = self.members(class);
        assert(members[0] == object);
        lemma_named(before.object(object).name@, name);
        assert(name.subrange(0, name.len() as int) =~= name);
    }

    /// An object that was detached is found by no search, whatever the name
    /// and the class.
    pub proof fn lemma_not_found_after_detaching(
        &self,
        before: &Registry,
        object: usize,
        class: ObjectClassType,
        name: Seq<u8>,
    )
        requires
            before.wf(),
            self.detached(before, object),
        ensures
            self.first_named(self.members(class), name, 0) != Some(object),
    {
        before.lemma_members(class);
        lemma_without(before.members(class), object);
        self.lemma_first_named(self.members(class), name, 0);
    }

    /// Registering a first object, then a second, then detaching the first
    /// leaves the second at the front of the list of the class, in front of
    /// what was there before.
    pub proof fn lemma_two_then_detach_first(
        &self,
        one: &Registry,
        two: &Registry,
        after: &Registry,
        first: usize,
        second: usize,
        class: ObjectClassType,
        first_name: Seq<u8>,
        second_name: Seq<u8>,
    )
        requires
            self.wf(),
            self.is_object(first),
            self.is_object(second),
            first != second,
            self.accepts(first, class) is Ok,
            self.accepts(second, class) is Ok,
            one.registered(self, first, class, first_name),
            two.registered(one, second, class, second_name),
            after.detached(two, first),
        ensures
            two.members(class) == self.members(class).insert(0, first).insert(0, second),
            after.members(class) == self.members(class).insert(0, second),
            after.object(second).name@ == named(self.object(second).name@, second_name),
            after.object(first).kind == 0,
    {
        self.lemma_members(class);
        self.lemma_unused_on_no_list(class, first);
        self.lemma_unused_on_no_list(class, second);
        lemma_register_two_detach_first(self.members(class), first, second);
    }
}

impl Object {
    /// Adds storage for one object to the registry of `kernel` and returns
    /// its handle. The storage is unused and on no list.
    pub fn allocate(kernel: &mut Kernel) -> (object: usize)
        requires
            old(kernel).registry.wf(),
        ensures
            final(kernel).registry.wf(),
            old(kernel).wf() ==> final(kernel).wf(),
            final(kernel).cpu == old(kernel).cpu,
            final(kernel).scheduler == old(kernel).scheduler,
            object == old(kernel).registry.next_handle(),
            !old(kernel).registry.is_object(object),
            final(kernel).registry.is_object(object),
            final(kernel).registry.object(object).kind == 0,
            final(kernel).registry.object(object).flag == 0,
            final(kernel).registry.object(object).list == object,
            final(kernel).registry.object(object).name@ == Seq::new(NAME_MAX as nat, |i: int| 0u8),
            final(kernel).registry.same_slots(&old(kernel).registry),
            final(kernel).registry.same_objects(&old(kernel).registry),
            forall|class: ObjectClassType| #[trigger]
                final(kernel).registry.members(class) == old(kernel).registry.members(class),
    {
        kernel.registry.new_object()
    }

    /// The record held in the storage `object`.
    pub fn get(kernel: &Kernel, object: usize) -> (record: Object)
        requires
            kernel.registry.wf(),
            kernel.registry.is_object(object),
        ensures
            record == kernel.registry.object(object),
    {
        kernel.registry.objects[object - kernel.registry.container.len()]
    }

    /// The registry slot of `class`; none for a class that the kernel is
    /// built without.
    pub fn get_information(kernel: &Kernel, class: ObjectClassType) -> (info: Option<
        ObjectInformation,
    >)
        requires
            kernel.registry.wf(),
        ensures
            match kernel.registry.slot_of(class) {
                Some(slot) => info == Some(kernel.registry.info(slot)) && info.unwrap().class
                    == class && info.unwrap().object_list == slot,
                None => info is None,
            },
    {
        match kernel.registry.slot(class) {
            Some(slot) => {
                proof {
                    assert(kernel.registry.slot_ok(slot));
                    assert(kernel.registry.classes()[slot as int]
                        == kernel.registry.container@[slot as int].class);
                }
                Some(kernel.registry.container[slot])
            },
            None => None,
        }
    }

    /// Number of live objects of `class`: zero for a class that the kernel
    /// is built without. The list is walked with interrupts off; the kernel
    /// is left as it was.
    pub fn get_length(kernel: &mut Kernel, class: ObjectClassType) -> (n: usize)
        requires
            old(kernel).registry.wf(),
        ensures
            n == old(kernel).registry.members(class).len(),
            *final(kernel) == *old(kernel),
    {
        let slot = match kernel.registry.slot(class) {
            Some(slot) => slot,
            None => {
                return 0;
            },
        };
        proof {
            lemma_guard_round_trip(kernel.cpu);
        }
        let guard = InterruptFreeGuard::new(&mut kernel.cpu);
        let n = kernel.registry.count(&kernel.cpu, slot);
        guard.release(&mut kernel.cpu);
        n
    }

    /// Copies the records of the live objects of `class`, the one
    /// registered last first, to the front of `buf`, as many as `buf` has
    /// places for, and returns how many were copied. The places behind stay
    /// as they are. Nothing is copied for a class that the kernel is built
    /// without. The list is walked with interrupts off; the kernel is left
    /// as it was.
    pub fn get_pointers(kernel: &mut Kernel, class: ObjectClassType, buf: &mut Vec<Object>) -> (n:
        usize)
        requires
            old(kernel).registry.wf(),
        ensures
            *final(kernel) == *old(kernel),
            final(buf)@.len() == old(buf)@.len(),
            n == (if old(buf)@.len() < old(kernel).registry.members(class).len() {
                old(buf)@.len()
            } else {
                old(kernel).registry.members(class).len()
            }),
            forall|i: int|
                0 <= i < n ==> #[trigger] final(buf)@[i] == old(kernel).registry.object(
                    old(kernel).registry.members(class)[i],
                ),
            forall|i: int| n <= i < old(buf)@.len() ==> #[trigger] final(buf)@[i] == old(buf)@[i],
    {
        let slot = match kernel.registry.slot(class) {
            Some(slot) => slot,
            None => {
                return 0;
            },
        };
        proof {
            lemma_guard_round_trip(kernel.cpu);
        }
        let guard = InterruptFreeGuard::new(&mut kernel.cpu);
        let n = kernel.registry.snapshot(&kernel.cpu, slot, buf);
        guard.release(&mut kernel.cpu);
        n
    }

    /// The first live object of `class`, going from the one registered last
    /// to the one registered first, whose name is `name` byte for byte; none
    /// if there is no such object or the kernel is built without the class.
    /// The list is walked under the scheduler lock with interrupts off; the
    /// kernel is left as it was.
    pub fn find(kernel: &mut Kernel, name: &str, class: ObjectClassType) -> (found: Option<usize>)
        requires
            old(kernel).registry.wf(),
            old(kernel).scheduler.lock_nest() < u16::MAX,
        ensures
            *final(kernel) == *old(kernel),
            found == old(kernel).registry.first_named(
                old(kernel).registry.members(class),
                name.spec_bytes(),
                0,
            ),
    {
        let slot = match kernel.registry.slot(class) {
            Some(slot) => slot,
            None => {
                return None;
            },
        };
        proof {
            lemma_guard_round_trip(kernel.cpu);
            kernel.scheduler.lemma_with_lock((kernel.scheduler.lock_nest() + 1) as u16);
        }
        let lock = LockNestedGuard::new(&mut kernel.scheduler);
        let guard = InterruptFreeGuard::new(&mut kernel.cpu);
        let found = kernel.registry.lookup(&kernel.scheduler, &kernel.cpu, slot, name.as_bytes());
        guard.release(&mut kernel.cpu);
        lock.release(&mut kernel.scheduler);
        proof {
            old(kernel).scheduler.lemma_with_lock((old(kernel).scheduler.lock_nest() + 1) as u16);
        }
        found
    }

    /// Registers the storage `object` as a live object of `class` under the
    /// name `name`, cut to `NAME_MAX - 1` bytes and terminated. The object
    /// goes to the front of the list of its class, gets the tag of the class
    /// with the static flag, and loses its transient flags.
    ///
    /// Refused, with the kernel left as it was: a class that the kernel is
    /// built without, and storage that already holds a live object. The list
    /// of the class is searched for the storage under the scheduler lock
    /// with interrupts off, and the splice is done with interrupts off.
    #[verifier::rlimit(40)]
    pub fn init(kernel: &mut Kernel, object: usize, class: ObjectClassType, name: &str) -> (done:
        Result<(), RegisterError>)
        requires
            old(kernel).registry.wf(),
            old(kernel).registry.is_object(object),
            old(kernel).scheduler.lock_nest() < u16::MAX,
        ensures
            final(kernel).registry.wf(),
            old(kernel).wf() ==> final(kernel).wf(),
            final(kernel).cpu == old(kernel).cpu,
            final(kernel).scheduler == old(kernel).scheduler,
            done == old(kernel).registry.accepts(object, class),
            done is Err ==> final(kernel).registry == old(kernel).registry,
            done is Ok ==> final(kernel).registry.registered(
                &old(kernel).registry,
                object,
                class,
                name.spec_bytes(),
            ),
    {
        let slot = match kernel.registry.slot(class) {
            Some(slot) => slot,
            None => {
                return Err(RegisterError::ClassAbsent);
            },
        };
        proof {
            lemma_guard_round_trip(kernel.cpu);
            kernel.scheduler.lemma_with_lock((kernel.scheduler.lock_nest() + 1) as u16);
            kernel.registry.lemma_members(class);
            assert(kernel.registry.object_ok(object - kernel.registry.base()));
        }
        let lock = LockNestedGuard::new(&mut kernel.scheduler);
        let guard = InterruptFreeGuard::new(&mut kernel.cpu);
        let present = kernel.registry.holds(&kernel.scheduler, &kernel.cpu, slot, object);
        guard.release(&mut kernel.cpu);
        lock.release(&mut kernel.scheduler);
        proof {
            old(kernel).scheduler.lemma_with_lock((old(kernel).scheduler.lock_nest() + 1) as u16);
            if present {
                let i = choose|i: int|
                    0 <= i < kernel.registry.members(class).len() && kernel.registry.members(
                        class,
                    )[i] == object;
                assert(kernel.registry.object(kernel.registry.members(class)[i]).kind
                    == class.tag());
                class.lemma_tag();
            }
        }
        if present || kernel.registry.objects[object - kernel.registry.container.len()].kind != 0 {
            return Err(RegisterError::AlreadyRegistered);
        }
        kernel.registry.set_header(object, slot, name.as_bytes());
        let guard = InterruptFreeGuard::new(&mut kernel.cpu);
        kernel.registry.link(&kernel.cpu, slot, object);
        guard.release(&mut kernel.cpu);
        proof {
            let before = old(kernel).registry;
            let after = kernel.registry;
            assert(after.classes() == before.classes());
            assert(after.classes()[slot as int] == class);
            assert forall|other: ObjectClassType| other != class implies #[trigger] after.members(
                other,
            ) == before.members(other) by {
                if let Some(c) = before.slot_of(other) {
                    assert(before.classes()[c] == other);
                    assert(c != slot);
                }
            }
        }
        Ok(())
    }

    /// Takes the object `object` out of the registry: clears its type tag
    /// and, with interrupts off, takes it off the list that holds it. Its
    /// storage stays as it is otherwise, and stays the caller's.
    pub fn detach(kernel: &mut Kernel, object: usize)
        requires
            old(kernel).registry.wf(),
            old(kernel).registry.is_object(object),
        ensures
            final(kernel).registry.wf(),
            old(kernel).wf() ==> final(kernel).wf(),
            final(kernel).cpu == old(kernel).cpu,
            final(kernel).scheduler == old(kernel).scheduler,
            final(kernel).registry.detached(&old(kernel).registry, object),
    {
        proof {
            lemma_guard_round_trip(kernel.cpu);
        }
        let guard = InterruptFreeGuard::new(&mut kernel.cpu);
        kernel.registry.unlink(&kernel.cpu, object);
        guard.release(&mut kernel.cpu);
        proof {
            let before = old(kernel).registry;
            let after = kernel.registry;
            assert forall|class: ObjectClassType| #[trigger]
                after.members(class) == without(before.members(class), object) by {
                if before.slot_of(class) is None {
                    assert(without(Seq::<usize>::empty(), object) == Seq::<usize>::empty());
                }
            }
        }
    }
}

impl Object {
    /// Storage that holds no object yet.
    pub fn unused(list: usize) -> (object: Object)
        ensures
            object.kind == 0,
            object.flag == 0,
            object.list == list,
            object.name@ == Seq::new(NAME_MAX as nat, |i: int| 0u8),
    {
        let object = Object { name: [0u8; NAME_MAX], kind: 0, flag: 0, list };
        proof {
            assert(object.name@ =~= Seq::new(NAME_MAX as nat, |i: int| 0u8));
        }
        object
    }

    /// Whether the storage of the object belongs to the caller.
    pub fn is_system_object(&self) -> (system: bool)
        ensures
            system == (self.kind & STATIC_FLAG != 0),
    {
        self.kind & STATIC_FLAG != 0
    }

    /// The class byte of the object: its type tag without the static flag.
    pub fn get_type(&self) -> (class: u8)
        ensures
            class == self.kind & !STATIC_FLAG,
    {
        self.kind & !STATIC_FLAG
    }

    /// Whether the name that the object holds is `query`, byte for byte.
    pub fn name_is(&self, query: &[u8]) -> (same: bool)
        ensures
            same == (stored_name(self.name@) == query@),
    {
        let mut i: usize = 0;
        while i < NAME_MAX
            invariant
                i <= NAME_MAX,
                self.name@.len() == NAME_MAX,
                i <= query@.len(),
                forall|k: int|
                    0 <= k < i ==> (#[trigger] self.name@[k]) != 0 && self.name@[k] == query@[k],
            decreases NAME_MAX - i,
        {
            if self.name[i] == 0 {
                proof {
                    lemma_c_len_is(self.name@, i as int);
                    if i == query@.len() {
                        assert(stored_name(self.name@) =~= query@);
                    }
                }
                return i == query.len();
            }
            if i >= query.len() || query[i] != self.name[i] {
                proof {
                    lemma_c_len(self.name@, 0);
                    let n = c_len(self.name@, 0);
                    assert(n > i);
                    if stored_name(self.name@) == query@ {
                        assert(stored_name(self.name@)[i as int] == self.name@[i as int]);
                    }
                }
                return false;
            }
            i += 1;
        }
        proof {
            lemma_c_len_is(self.name@, NAME_MAX as int);
            if query@.len() == NAME_MAX {
                assert(stored_name(self.name@) =~= query@);
            }
        }
        query.len() == NAME_MAX
    }
}

/// The registry slot of `class`; see [`Object::get_information`].
pub fn get_information(kernel: &Kernel, class: ObjectClassType) -> (info: Option<ObjectInformation>)
    requires
        kernel.registry.wf(),
    ensures
        match kernel.registry.slot_of(class) {
            Some(slot) => info == Some(kernel.registry.info(slot)) && info.unwrap().class == class
                && info.unwrap().object_list == slot,
            None => info is None,
        },
{
    Object::get_information(kernel, class)
}

/// Number of live objects of `class`; see [`Object::get_length`].
pub fn get_length(kernel: &mut Kernel, class: ObjectClassType) -> (n: usize)
    requires
        old(kernel).registry.wf(),
    ensures
        n == old(kernel).registry.members(class).len(),
        *final(kernel) == *old(kernel),
{
    Object::get_length(kernel, class)
}

/// Copies the records of the live objects of `class` to the front of `buf`;
/// see [`Object::get_pointers`].
pub fn get_pointers(kernel: &mut Kernel, class: ObjectClassType, buf: &mut Vec<Object>) -> (n:
    usize)
    requires
        old(kernel).registry.wf(),
    ensures
        *final(kernel) == *old(kernel),
        final(buf)@.len() == old(buf)@.len(),
        n == (if old(buf)@.len() < old(kernel).registry.members(class).len() {
            old(buf)@.len()
        } else {
            old(kernel).registry.members(class).len()
        }),
        forall|i: int|
            0 <= i < n ==> #[trigger] final(buf)@[i] == old(kernel).registry.object(
                old(kernel).registry.members(class)[i],
            ),
        forall|i: int| n <= i < old(buf)@.len() ==> #[trigger] final(buf)@[i] == old(buf)@[i],
{
    Object::get_pointers(kernel, class, buf)
}

/// Registers the storage `object` as a live object of `class` under the name
/// `name`; see [`Object::init`].
pub fn init(kernel: &mut Kernel, object: usize, class: ObjectClassType, name: &str) -> (done:
    Result<(), RegisterError>)
    requires
        old(kernel).registry.wf(),
        old(kernel).registry.is_object(object),
        old(kernel).scheduler.lock_nest() < u16::MAX,
    ensures
        final(kernel).registry.wf(),
        old(kernel).wf() ==> final(kernel).wf(),
        final(kernel).cpu == old(kernel).cpu,
        final(kernel).scheduler == old(kernel).scheduler,
        done == old(kernel).registry.accepts(object, class),
        done is Err ==> final(kernel).registry == old(kernel).registry,
        done is Ok ==> final(kernel).registry.registered(
            &old(kernel).registry,
            object,
            class,
            name.spec_bytes(),
        ),
{
    Object::init(kernel, object, class, name)
}

/// Takes the object `object` out of the registry; see [`Object::detach`].
pub fn detach(kernel: &mut Kernel, object: usize)
    requires
        old(kernel).registry.wf(),
        old(kernel).registry.is_object(object),
    ensures
        final(kernel).registry.wf(),
        old(kernel).wf() ==> final(kernel).wf(),
        final(kernel).cpu == old(kernel).cpu,
        final(kernel).scheduler == old(kernel).scheduler,
        final(kernel).registry.detached(&old(kernel).registry, object),
{
    Object::detach(kernel, object)
}

} // verus!
