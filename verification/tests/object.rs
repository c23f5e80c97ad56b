use rrtt::class::ObjectClassType as Ty;
use rrtt::class::{ClassSet, ObjIdx, ObjectClassType, STATIC_FLAG};
use rrtt::kernel::Kernel;
use rrtt::object::{
    detach, get_information, get_length, get_pointers, init, Object, ObjectInformation,
    RegisterError, NAME_MAX, OBJECT_SIZE,
};

fn kernel_with(set: &ClassSet) -> Kernel {
    Kernel::new(false, set, 8)
}

fn slot_record(set: &ClassSet, idx: ObjIdx) -> Option<ObjectInformation> {
    Some(ObjectInformation {
        class: idx.class(),
        object_list: idx.slot(set).unwrap(),
        object_size: OBJECT_SIZE,
    })
}

fn buffer(places: usize) -> Vec<Object> {
    let mut buf = Vec::new();
    for _ in 0..places {
        buf.push(Object::unused(0));
    }
    buf
}

#[test]
fn object_test_get_information() {
    let set = ClassSet::all();
    let kernel = kernel_with(&set);
    assert_eq!(
        [
            None,
            slot_record(&set, ObjIdx::Thread),
            slot_record(&set, ObjIdx::Semaphore),
            slot_record(&set, ObjIdx::Mutex),
            slot_record(&set, ObjIdx::Event),
            slot_record(&set, ObjIdx::MailBox),
            slot_record(&set, ObjIdx::MessageQueue),
            slot_record(&set, ObjIdx::MemHeap),
            slot_record(&set, ObjIdx::MemPool),
            slot_record(&set, ObjIdx::Device),
            slot_record(&set, ObjIdx::Timer),
            None,
            None
        ],
        [
            Object::get_information(&kernel, ObjectClassType::Null),
            Object::get_information(&kernel, ObjectClassType::Thread),
            Object::get_information(&kernel, ObjectClassType::Semaphore),
            Object::get_information(&kernel, ObjectClassType::Mutex),
            Object::get_information(&kernel, ObjectClassType::Event),
            Object::get_information(&kernel, ObjectClassType::MailBox),
            Object::get_information(&kernel, ObjectClassType::MessageQueue),
            Object::get_information(&kernel, ObjectClassType::MemHeap),
            Object::get_information(&kernel, ObjectClassType::MemPool),
            Object::get_information(&kernel, ObjectClassType::Device),
            Object::get_information(&kernel, ObjectClassType::Timer),
            Object::get_information(&kernel, ObjectClassType::Unknown),
            Object::get_information(&kernel, ObjectClassType::Static),
        ]
    );
}

#[test]
fn test_get_information() {
    let set = ClassSet::minimal();
    let kernel = kernel_with(&set);
    assert_eq!(
        [None, slot_record(&set, ObjIdx::Thread), slot_record(&set, ObjIdx::Timer), None, None],
        [
            get_information(&kernel, ObjectClassType::Null),
            get_information(&kernel, ObjectClassType::Thread),
            get_information(&kernel, ObjectClassType::Timer),
            get_information(&kernel, ObjectClassType::Unknown),
            get_information(&kernel, ObjectClassType::Static),
        ]
    );
}

#[test]
fn object_test_modify() {
    let mut kernel = kernel_with(&ClassSet::all());
    assert_eq!(0, Object::get_length(&mut kernel, Ty::Null));
    assert_eq!(0, Object::get_length(&mut kernel, Ty::Thread));

    let threads = [Object::allocate(&mut kernel), Object::allocate(&mut kernel)];
    assert_eq!(Ok(()), Object::init(&mut kernel, threads[0], Ty::Thread, "thread0"));
    assert_eq!(Ok(()), Object::init(&mut kernel, threads[1], Ty::Thread, "thread1"));

    assert_eq!(2, Object::get_length(&mut kernel, Ty::Thread));

    let mut pointers = buffer(8);
    assert_eq!(2, Object::get_pointers(&mut kernel, Ty::Thread, &mut pointers));
    // The object registered last comes first.
    for (a, b) in threads.into_iter().rev().zip(pointers.iter()) {
        assert_eq!(Object::get(&kernel, a), *b);
    }

    Object::detach(&mut kernel, threads[0]);

    assert_eq!(1, Object::get_length(&mut kernel, Ty::Thread));
    assert_eq!(1, Object::get_pointers(&mut kernel, Ty::Thread, &mut pointers));
    assert_eq!(Object::get(&kernel, threads[1]), pointers[0]);

    let thread1 = Object::find(&mut kernel, "thread1", Ty::Thread);
    assert_eq!(Some(threads[1]), thread1);
}

#[test]
fn test_modify() {
    let mut kernel = kernel_with(&ClassSet::minimal());
    assert_eq!(0, get_length(&mut kernel, ObjectClassType::Null));
    assert_eq!(0, get_length(&mut kernel, ObjectClassType::Thread));

    let threads = [Object::allocate(&mut kernel), Object::allocate(&mut kernel)];
    assert_eq!(Ok(()), init(&mut kernel, threads[0], ObjectClassType::Thread, "thread0"));
    assert_eq!(Ok(()), init(&mut kernel, threads[1], ObjectClassType::Thread, "thread1"));

    assert_eq!(2, get_length(&mut kernel, ObjectClassType::Thread));

    let mut pointers = buffer(8);
    assert_eq!(2, get_pointers(&mut kernel, ObjectClassType::Thread, &mut pointers));
    // The object registered last comes first.
    for (a, b) in threads.into_iter().rev().zip(pointers.iter()) {
        assert_eq!(Object::get(&kernel, a), *b);
    }

    detach(&mut kernel, threads[0]);

    assert_eq!(1, get_length(&mut kernel, ObjectClassType::Thread));

    assert_eq!(1, get_pointers(&mut kernel, ObjectClassType::Thread, &mut pointers));
    assert_eq!(Object::get(&kernel, threads[1]), pointers[0]);
}

#[test]
fn count_goes_up_by_one_and_back_for_every_class() {
    let set = ClassSet::all();
    let classes = [
        ObjectClassType::Thread,
        ObjectClassType::Semaphore,
        ObjectClassType::Mutex,
        ObjectClassType::Event,
        ObjectClassType::MailBox,
        ObjectClassType::MessageQueue,
        ObjectClassType::MemHeap,
        ObjectClassType::MemPool,
        ObjectClassType::Device,
        ObjectClassType::Timer,
    ];
    let mut kernel = kernel_with(&set);
    for class in classes {
        let resident = Object::allocate(&mut kernel);
        assert_eq!(Ok(()), Object::init(&mut kernel, resident, class, "stay"));
        let before = Object::get_length(&mut kernel, class);
        assert_eq!(1, before);
        let object = Object::allocate(&mut kernel);
        assert_eq!(Ok(()), Object::init(&mut kernel, object, class, "come"));
        assert_eq!(before + 1, Object::get_length(&mut kernel, class));
        Object::detach(&mut kernel, object);
        assert_eq!(before, Object::get_length(&mut kernel, class));
        for other in classes {
            if other != class {
                let n = Object::get_length(&mut kernel, other);
                assert!(n <= 1);
            }
        }
    }
}

#[test]
fn register_two_detach_first_leaves_second() {
    let mut kernel = kernel_with(&ClassSet::all());
    let a = Object::allocate(&mut kernel);
    let b = Object::allocate(&mut kernel);
    assert_eq!(Ok(()), Object::init(&mut kernel, a, ObjectClassType::Mutex, "first"));
    assert_eq!(Ok(()), Object::init(&mut kernel, b, ObjectClassType::Mutex, "second"));
    Object::detach(&mut kernel, a);
    let mut buf = buffer(4);
    assert_eq!(1, Object::get_pointers(&mut kernel, ObjectClassType::Mutex, &mut buf));
    assert_eq!(b, buf[0].list);
    assert_eq!(Some(b), Object::find(&mut kernel, "second", ObjectClassType::Mutex));
    assert_eq!(None, Object::find(&mut kernel, "first", ObjectClassType::Mutex));
}

#[test]
fn find_on_empty_or_excluded_registry_is_none() {
    let mut kernel = kernel_with(&ClassSet::minimal());
    for query in ["", "a", "thread0", "a name that is longer than the field"] {
        assert_eq!(None, Object::find(&mut kernel, query, ObjectClassType::Thread));
        assert_eq!(None, Object::find(&mut kernel, query, ObjectClassType::Semaphore));
        assert_eq!(None, Object::find(&mut kernel, query, ObjectClassType::Null));
        assert_eq!(None, Object::find(&mut kernel, query, ObjectClassType::Unknown));
        assert_eq!(None, Object::find(&mut kernel, query, ObjectClassType::Static));
    }
    assert_eq!(0, Object::get_length(&mut kernel, ObjectClassType::Semaphore));
    let mut buf = buffer(2);
    assert_eq!(0, Object::get_pointers(&mut kernel, ObjectClassType::Semaphore, &mut buf));
}

#[test]
fn name_is_cut_to_fit_before_the_terminator() {
    let mut kernel = kernel_with(&ClassSet::minimal());
    let exact = Object::allocate(&mut kernel);
    assert_eq!(Ok(()), Object::init(&mut kernel, exact, ObjectClassType::Thread, "12345678"));
    assert_eq!(NAME_MAX, 8);
    assert_eq!(*b"1234567\0", Object::get(&kernel, exact).name);
    assert_eq!(Some(exact), Object::find(&mut kernel, "1234567", ObjectClassType::Thread));
    assert_eq!(None, Object::find(&mut kernel, "12345678", ObjectClassType::Thread));

    let long = Object::allocate(&mut kernel);
    assert_eq!(
        Ok(()),
        Object::init(&mut kernel, long, ObjectClassType::Thread, "abcdefghijklmnopqrstuvwxyz")
    );
    assert_eq!(*b"abcdefg\0", Object::get(&kernel, long).name);

    let short = Object::allocate(&mut kernel);
    assert_eq!(Ok(()), Object::init(&mut kernel, short, ObjectClassType::Thread, "ab"));
    assert_eq!(*b"ab\0\0\0\0\0\0", Object::get(&kernel, short).name);
    assert_eq!(Some(short), Object::find(&mut kernel, "ab", ObjectClassType::Thread));
    assert_eq!(None, Object::find(&mut kernel, "a", ObjectClassType::Thread));

    let empty = Object::allocate(&mut kernel);
    assert_eq!(Ok(()), Object::init(&mut kernel, empty, ObjectClassType::Thread, ""));
    assert_eq!([0u8; 8], Object::get(&kernel, empty).name);
    assert_eq!(Some(empty), Object::find(&mut kernel, "", ObjectClassType::Thread));
}

#[test]
fn renaming_keeps_the_bytes_behind_the_terminator() {
    let mut kernel = kernel_with(&ClassSet::minimal());
    let object = Object::allocate(&mut kernel);
    assert_eq!(Ok(()), Object::init(&mut kernel, object, ObjectClassType::Timer, "longname"));
    Object::detach(&mut kernel, object);
    assert_eq!(*b"longnam\0", Object::get(&kernel, object).name);
    assert_eq!(Ok(()), Object::init(&mut kernel, object, ObjectClassType::Timer, "ab"));
    assert_eq!(*b"ab\0gnam\0", Object::get(&kernel, object).name);
    assert_eq!(Some(object), Object::find(&mut kernel, "ab", ObjectClassType::Timer));
}

#[test]
fn snapshot_reports_last_registered_first() {
    let mut kernel = kernel_with(&ClassSet::minimal());
    let a = Object::allocate(&mut kernel);
    let b = Object::allocate(&mut kernel);
    let c = Object::allocate(&mut kernel);
    for (object, name) in [(a, "a"), (b, "b"), (c, "c")] {
        assert_eq!(Ok(()), Object::init(&mut kernel, object, ObjectClassType::Timer, name));
    }
    let mut buf = buffer(3);
    assert_eq!(3, Object::get_pointers(&mut kernel, ObjectClassType::Timer, &mut buf));
    let handles: Vec<usize> = buf.iter().map(|o| o.list).collect();
    assert_eq!(vec![c, b, a], handles);
    assert_eq!(b'c', buf[0].name[0]);
    assert_eq!(b'a', buf[2].name[0]);
}

#[test]
fn snapshot_stops_at_the_capacity_and_leaves_the_rest() {
    let mut kernel = kernel_with(&ClassSet::minimal());
    let mut handles = Vec::new();
    for name in ["a", "b", "c", "d"] {
        let object = Object::allocate(&mut kernel);
        assert_eq!(Ok(()), Object::init(&mut kernel, object, ObjectClassType::Thread, name));
        handles.push(object);
    }
    let mut small = buffer(2);
    assert_eq!(2, Object::get_pointers(&mut kernel, ObjectClassType::Thread, &mut small));
    assert_eq!(2, small.len());
    assert_eq!(handles[3], small[0].list);
    assert_eq!(handles[2], small[1].list);

    let mut none = buffer(0);
    assert_eq!(0, Object::get_pointers(&mut kernel, ObjectClassType::Thread, &mut none));

    let mut large = buffer(6);
    let untouched = Object { name: *b"zzzzzzz\0", kind: 7, flag: 9, list: 99 };
    large[4] = untouched;
    large[5] = untouched;
    assert_eq!(4, Object::get_pointers(&mut kernel, ObjectClassType::Thread, &mut large));
    assert_eq!(6, large.len());
    assert_eq!(untouched, large[4]);
    assert_eq!(untouched, large[5]);
    assert_eq!(handles[0], large[3].list);
}

#[test]
fn registering_sets_tag_and_clears_flags() {
    let mut kernel = kernel_with(&ClassSet::all());
    let object = Object::allocate(&mut kernel);
    let fresh = Object::get(&kernel, object);
    assert_eq!(0, fresh.kind);
    assert!(!fresh.is_system_object());
    assert_eq!(0, fresh.get_type());
    assert_eq!(object, fresh.list);

    assert_eq!(Ok(()), Object::init(&mut kernel, object, ObjectClassType::Device, "uart"));
    let live = Object::get(&kernel, object);
    assert_eq!(0x09 | STATIC_FLAG, live.kind);
    assert_eq!(0x89, live.kind);
    assert_eq!(0, live.flag);
    assert!(live.is_system_object());
    assert_eq!(ObjectClassType::Device.code(), live.get_type());
    assert_eq!(0x09, live.get_type());

    Object::detach(&mut kernel, object);
    let gone = Object::get(&kernel, object);
    assert_eq!(0, gone.kind);
    assert_eq!(live.name, gone.name);
    assert!(!gone.is_system_object());
}

#[test]
fn registering_twice_is_refused() {
    let mut kernel = kernel_with(&ClassSet::all());
    let object = Object::allocate(&mut kernel);
    assert_eq!(Ok(()), Object::init(&mut kernel, object, ObjectClassType::Event, "once"));
    let before = Object::get(&kernel, object);
    assert_eq!(
        Err(RegisterError::AlreadyRegistered),
        Object::init(&mut kernel, object, ObjectClassType::Event, "twice")
    );
    assert_eq!(
        Err(RegisterError::AlreadyRegistered),
        Object::init(&mut kernel, object, ObjectClassType::Mutex, "other")
    );
    assert_eq!(before, Object::get(&kernel, object));
    assert_eq!(1, Object::get_length(&mut kernel, ObjectClassType::Event));
    assert_eq!(0, Object::get_length(&mut kernel, ObjectClassType::Mutex));
}

#[test]
fn registering_in_a_class_left_out_is_refused() {
    let mut kernel = kernel_with(&ClassSet::minimal());
    let object = Object::allocate(&mut kernel);
    for class in [
        ObjectClassType::Semaphore,
        ObjectClassType::Device,
        ObjectClassType::Null,
        ObjectClassType::Unknown,
        ObjectClassType::Static,
    ] {
        assert_eq!(
            Err(RegisterError::ClassAbsent),
            Object::init(&mut kernel, object, class, "x")
        );
    }
    assert_eq!(0, Object::get(&kernel, object).kind);
    assert_eq!(Ok(()), Object::init(&mut kernel, object, ObjectClassType::Timer, "x"));
}

#[test]
fn detaching_an_unused_object_changes_nothing() {
    let mut kernel = kernel_with(&ClassSet::minimal());
    let a = Object::allocate(&mut kernel);
    let b = Object::allocate(&mut kernel);
    assert_eq!(Ok(()), Object::init(&mut kernel, a, ObjectClassType::Thread, "a"));
    Object::detach(&mut kernel, b);
    Object::detach(&mut kernel, b);
    assert_eq!(1, Object::get_length(&mut kernel, ObjectClassType::Thread));
    assert_eq!(Some(a), Object::find(&mut kernel, "a", ObjectClassType::Thread));
}

#[test]
fn find_returns_the_one_registered_last_among_equal_names() {
    let mut kernel = kernel_with(&ClassSet::minimal());
    let a = Object::allocate(&mut kernel);
    let b = Object::allocate(&mut kernel);
    assert_eq!(Ok(()), Object::init(&mut kernel, a, ObjectClassType::Thread, "same"));
    assert_eq!(Ok(()), Object::init(&mut kernel, b, ObjectClassType::Thread, "same"));
    assert_eq!(Some(b), Object::find(&mut kernel, "same", ObjectClassType::Thread));
    Object::detach(&mut kernel, b);
    assert_eq!(Some(a), Object::find(&mut kernel, "same", ObjectClassType::Thread));
}

#[test]
fn operations_leave_mask_and_lock_as_they_found_them() {
    let mut kernel = Kernel::new(true, &ClassSet::minimal(), 8);
    kernel.cpu.mask = 0;
    let object = Object::allocate(&mut kernel);
    assert_eq!(Ok(()), Object::init(&mut kernel, object, ObjectClassType::Thread, "t"));
    assert_eq!(0, kernel.cpu.mask);
    assert_eq!(0, kernel.scheduler.lock_depth());
    assert_eq!(Some(object), Object::find(&mut kernel, "t", ObjectClassType::Thread));
    assert_eq!(1, Object::get_length(&mut kernel, ObjectClassType::Thread));
    Object::detach(&mut kernel, object);
    assert_eq!(0, kernel.cpu.mask);
    assert_eq!(0, kernel.scheduler.lock_depth());

    kernel.cpu.mask = 1;
    assert_eq!(Ok(()), Object::init(&mut kernel, object, ObjectClassType::Thread, "t"));
    assert_eq!(None, Object::find(&mut kernel, "u", ObjectClassType::Thread));
    assert_eq!(1, kernel.cpu.mask);
}

#[test]
fn end_to_end_with_threads_only() {
    let mut kernel = kernel_with(&ClassSet::minimal());
    let thread0 = Object::allocate(&mut kernel);
    let thread1 = Object::allocate(&mut kernel);
    assert_ne!(thread0, thread1);
    assert_eq!(Ok(()), Object::init(&mut kernel, thread0, ObjectClassType::Thread, "thread0"));
    assert_eq!(Ok(()), Object::init(&mut kernel, thread1, ObjectClassType::Thread, "thread1"));
    assert_eq!(2, Object::get_length(&mut kernel, ObjectClassType::Thread));
    Object::detach(&mut kernel, thread0);
    assert_eq!(1, Object::get_length(&mut kernel, ObjectClassType::Thread));
    assert_eq!(None, Object::find(&mut kernel, "thread0", ObjectClassType::Thread));
    assert_eq!(Some(thread1), Object::find(&mut kernel, "thread1", ObjectClassType::Thread));
}

#[test]
fn slots_move_up_when_classes_are_left_out() {
    let set = ClassSet {
        semaphore: false,
        mutex: true,
        event: false,
        mailbox: false,
        message_queue: true,
        mem_heap: false,
        mem_pool: false,
        device: false,
    };
    assert_eq!(Some(0), ObjIdx::Thread.slot(&set));
    assert_eq!(None, ObjIdx::Semaphore.slot(&set));
    assert_eq!(Some(1), ObjIdx::Mutex.slot(&set));
    assert_eq!(None, ObjIdx::Event.slot(&set));
    assert_eq!(Some(2), ObjIdx::MessageQueue.slot(&set));
    assert_eq!(Some(3), ObjIdx::Timer.slot(&set));
    assert_eq!(Some(4), ObjIdx::Unknown.slot(&set));
    assert_eq!(Some(10), ObjIdx::Unknown.slot(&ClassSet::all()));
    assert_eq!(Some(2), ObjIdx::Unknown.slot(&ClassSet::minimal()));
    let kernel = kernel_with(&set);
    let info = Object::get_information(&kernel, ObjectClassType::MessageQueue).unwrap();
    assert_eq!(2, info.object_list);
    assert_eq!(ObjectClassType::MessageQueue, info.class);
    assert_eq!(None, Object::get_information(&kernel, ObjectClassType::Event));
}

#[test]
fn class_codes_are_the_documented_bytes() {
    let codes = [
        (ObjectClassType::Null, 0x00),
        (ObjectClassType::Thread, 0x01),
        (ObjectClassType::Semaphore, 0x02),
        (ObjectClassType::Mutex, 0x03),
        (ObjectClassType::Event, 0x04),
        (ObjectClassType::MailBox, 0x05),
        (ObjectClassType::MessageQueue, 0x06),
        (ObjectClassType::MemHeap, 0x07),
        (ObjectClassType::MemPool, 0x08),
        (ObjectClassType::Device, 0x09),
        (ObjectClassType::Timer, 0x0a),
        (ObjectClassType::Unknown, 0x0c),
        (ObjectClassType::Static, 0x80),
    ];
    for (class, code) in codes {
        assert_eq!(code, class.code());
    }
}

#[test]
fn name_is_compares_up_to_the_terminator() {
    let object = Object { name: *b"ab\0cd\0\0\0", kind: 0, flag: 0, list: 0 };
    assert!(object.name_is(b"ab"));
    assert!(!object.name_is(b"a"));
    assert!(!object.name_is(b"abc"));
    assert!(!object.name_is(b"ab\0cd"));
    assert!(!object.name_is(b""));
    let full = Object { name: *b"abcdefgh", kind: 0, flag: 0, list: 0 };
    assert!(full.name_is(b"abcdefgh"));
    assert!(!full.name_is(b"abcdefg"));
    assert!(!full.name_is(b"abcdefghi"));
}
