use loom::sync::atomic::{AtomicBool, AtomicI32, AtomicUsize, Ordering};
use loom::sync::Arc;
use loom::thread;
use memory_ordering::memory_ordering::{
    attempt_to, found, made, taken, top, Attempt, Node, Popped, Stack, TaggedPtr, NODE_ALIGN,
};

// With relaxed ordering on the flag this would break.
#[test]
fn relaxed_flag_data_can_break() {
    loom::model(|| {
        let data = Arc::new(AtomicI32::new(0));
        let flag = Arc::new(AtomicBool::new(false));

        let data_writer = data.clone();
        let flag_writer = flag.clone();

        let writer = thread::spawn(move || {
            data_writer.store(42, Ordering::Relaxed);
            flag_writer.store(true, Ordering::Release);
        });

        let data_reader = data.clone();
        let flag_reader = flag.clone();

        let reader = thread::spawn(move || {
            for _ in 0..3 {
                if flag_reader.load(Ordering::Acquire) {
                    break;
                }
                thread::yield_now();
            }

            let v = data_reader.load(Ordering::Relaxed);
            if flag_reader.load(Ordering::Relaxed) && v != 42 {
                panic!("BROKEN: {v}");
            }
        });

        writer.join().unwrap();
        reader.join().unwrap();
    });
}

// With relaxed ordering on the counter this does not break.
#[test]
fn cas_increment() {
    loom::model(|| {
        let counter = Arc::new(AtomicUsize::new(0));

        let mut threads = vec![];

        for _ in 0..2 {
            let c = counter.clone();
            threads.push(thread::spawn(move || {
                for _ in 0..2 {
                    loop {
                        let old = c.load(Ordering::Acquire);
                        let new = old + 1;

                        if c.compare_exchange(old, new, Ordering::Relaxed, Ordering::Relaxed)
                            .is_ok()
                        {
                            break;
                        }

                        thread::yield_now();
                    }
                }
            }));
        }

        for t in threads {
            t.join().unwrap();
        }

        let final_ = counter.load(Ordering::Acquire);
        assert_eq!(final_, 4);
    });
}

/// A stack together with its nodes: the node at index `i` has the address `(i + 1) * NODE_ALIGN`.
/// The lock is held for a read or a write of one node only.
struct Shared {
    stack: Stack<usize>,
    nodes: std::sync::Mutex<Vec<Node<usize>>>,
}

impl Shared {
    fn new() -> Shared {
        Shared { stack: Stack::new(), nodes: std::sync::Mutex::new(Vec::new()) }
    }

    fn push(&self, value: usize) -> Attempt {
        let index = {
            let mut nodes = self.nodes.lock().unwrap();
            nodes.push(Node { value, next: 0 });
            nodes.len() - 1
        };
        let link = |next: usize| {
            self.nodes.lock().unwrap()[index].next = next;
            (index + 1) * NODE_ALIGN
        };
        Stack::<usize>::push(&mut self.stack.handle(), link, u64::MAX).unwrap()
    }

    fn pop(&self) -> Option<usize> {
        let next_of = |address: usize| self.nodes.lock().unwrap()[address / NODE_ALIGN - 1].next;
        let value_of = |address: usize| self.nodes.lock().unwrap()[address / NODE_ALIGN - 1].value;
        match Stack::pop(&mut self.stack.handle(), next_of, value_of, u64::MAX) {
            Popped::Empty => None,
            Popped::Taken { value, .. } => Some(value),
            Popped::Contended => panic!("gave up"),
        }
    }
}

/// Explores the interleavings that switch threads early at most `switches` times.
fn explore(switches: usize, f: impl Fn() + Sync + Send + 'static) {
    let mut builder = loom::model::Builder::new();
    builder.preemption_bound = Some(switches);
    builder.max_duration = Some(std::time::Duration::from_secs(12));
    builder.check(f);
}

#[test]
fn treiber_stack_basic() {
    let mut builder = loom::model::Builder::new();
    builder.max_duration = Some(std::time::Duration::from_secs(12));
    builder.check(|| {
        let stack = Arc::new(Shared::new());

        // Pushers
        let s1 = stack.clone();
        let t1 = thread::spawn(move || {
            s1.push(1);
            s1.push(2);
        });

        let s2 = stack.clone();
        let t2 = thread::spawn(move || {
            s2.push(3);
            s2.push(4);
        });

        // Poppers
        let s3 = stack.clone();
        let t3 = thread::spawn(move || {
            let _ = s3.pop();
            let _ = s3.pop();
        });

        let s4 = stack.clone();
        let t4 = thread::spawn(move || {
            let _ = s4.pop();
            let _ = s4.pop();
        });

        t1.join().unwrap();
        t2.join().unwrap();
        t3.join().unwrap();
        t4.join().unwrap();

        // Drain whatever is left
        while stack.pop().is_some() {}

        assert!(stack.pop().is_none(), "stack not empty");
    });
}

#[test]
fn every_value_comes_out_once() {
    explore(2, || {
        let stack = Arc::new(Shared::new());
        let mut pushers = vec![];
        for values in [[1, 2], [3, 4]] {
            let s = stack.clone();
            pushers.push(thread::spawn(move || {
                s.push(values[0]);
                s.push(values[1]);
            }));
        }
        let mut poppers = vec![];
        for _ in 0..2 {
            let s = stack.clone();
            poppers.push(thread::spawn(move || [s.pop(), s.pop()]));
        }
        for pusher in pushers {
            pusher.join().unwrap();
        }
        let mut values: Vec<usize> = vec![];
        for popper in poppers {
            values.extend(popper.join().unwrap().into_iter().flatten());
        }
        while let Some(value) = stack.pop() {
            values.push(value);
        }
        assert!(stack.pop().is_none());
        values.sort();
        assert_eq!(values, [1, 2, 3, 4]);
    });
}

#[test]
fn no_value_is_lost_or_doubled() {
    explore(3, || {
        let stack = Arc::new(Shared::new());
        let s1 = stack.clone();
        let t1 = thread::spawn(move || {
            s1.push(1);
            s1.pop()
        });
        let s2 = stack.clone();
        let t2 = thread::spawn(move || {
            s2.push(2);
            s2.pop()
        });
        stack.push(3);
        let mut values = vec![t1.join().unwrap().unwrap(), t2.join().unwrap().unwrap()];
        values.push(stack.pop().unwrap());
        assert!(stack.pop().is_none());
        values.sort();
        assert_eq!(values, [1, 2, 3]);
    });
}

#[test]
fn last_in_first_out() {
    loom::model(|| {
        let stack = Shared::new();
        assert_eq!(stack.pop(), None);
        let first = stack.push(10);
        assert_eq!(first, Attempt { observed: 0, replacement: 8 + 1 });
        let second = stack.push(20);
        assert_eq!(second, Attempt { observed: 9, replacement: 16 + 2 });
        assert_eq!(stack.nodes.lock().unwrap()[1].next, 8);
        assert_eq!(stack.pop(), Some(20));
        stack.push(30);
        assert_eq!(stack.pop(), Some(30));
        assert_eq!(stack.pop(), Some(10));
        assert_eq!(stack.pop(), None);
    });
}

#[test]
fn the_tag_wraps_around() {
    loom::model(|| {
        let stack = Shared::new();
        for i in 0..20 {
            stack.push(i);
            assert_eq!(stack.pop(), Some(i));
        }
        assert_eq!(stack.pop(), None);
    });
}

#[test]
fn no_tries_do_nothing() {
    loom::model(|| {
        let stack = Stack::<usize>::new();
        let handle = &mut stack.handle();
        let unlinked = |_: usize| -> usize { panic!("linked") };
        assert_eq!(Stack::<usize>::push(handle, unlinked, 0), None);
        assert!(matches!(Stack::pop(handle, |_| 0, |_| 0, 0), Popped::Contended));
        assert!(matches!(Stack::pop(handle, |_| 0, |_| 0, 1), Popped::Empty));
        assert!(Stack::<usize>::push(handle, |_| 8, 1).is_some());
        assert!(matches!(Stack::pop(handle, |_| 0, |_| 7, 1), Popped::Taken { value: 7, .. }));
    });
}

#[test]
fn a_change_in_between_fails_the_exchange() {
    loom::model(|| {
        let stack = Shared::new();
        stack.push(1);
        stack.push(2);
        // While a thread looks at the top node, the node goes and comes back.
        let meddled = std::cell::Cell::new(0);
        let next_of = |address: usize| {
            let next = stack.nodes.lock().unwrap()[address / NODE_ALIGN - 1].next;
            if meddled.get() == 0 {
                assert_eq!(stack.pop(), Some(2));
                let link = |next: usize| {
                    stack.nodes.lock().unwrap()[1].next = next;
                    16
                };
                assert!(Stack::<usize>::push(&mut stack.stack.handle(), link, 1).is_some());
            }
            meddled.set(meddled.get() + 1);
            next
        };
        let popped = Stack::pop(&mut stack.stack.handle(), next_of, |address| address, 1);
        assert!(matches!(popped, Popped::Contended));
        assert_eq!(meddled.get(), 1);
        assert_eq!(stack.pop(), Some(2));
        assert_eq!(stack.pop(), Some(1));
        assert_eq!(stack.pop(), None);
    });
}

#[test]
fn a_contended_push_has_linked_its_node() {
    loom::model(|| {
        let stack = Shared::new();
        stack.push(1);
        // While a thread links its node, another one is pushed below it.
        let linked = std::cell::RefCell::new(Vec::new());
        let link = |next: usize| {
            stack.push(2);
            linked.borrow_mut().push(next);
            800
        };
        assert_eq!(Stack::<usize>::push(&mut stack.stack.handle(), link, 3), None);
        assert_eq!(linked.into_inner(), [8, 16, 24]);
        assert_eq!(stack.pop(), Some(2));
    });
}

#[test]
fn a_refused_exchange_changes_nothing() {
    let attempt = Attempt { observed: 8, replacement: 17 };
    assert_eq!(made(attempt, Ok(8)), Some(attempt));
    assert_eq!(made(attempt, Err(9)), None);
}

#[test]
fn a_pop_ends_on_an_empty_head_or_an_exchange() {
    assert!(matches!(found::<u8>(5), Err(Popped::Empty)));
    assert!(matches!(found::<u8>(64 + 5), Ok(64)));
    let attempt = Attempt { observed: 64 + 5, replacement: 6 };
    let value_of = |address: usize| address + 1;
    let popped = taken(attempt, Ok(64 + 5), &value_of);
    assert!(matches!(popped, Popped::Taken { value: 65, attempt: change } if change == attempt));
    let unread = |_: usize| -> usize { panic!("read") };
    assert!(matches!(taken(attempt, Err(64 + 6), &unread), Popped::Contended));
}

#[test]
fn attempts_move_the_head_and_the_tag() {
    assert_eq!(attempt_to(0, 64), Attempt { observed: 0, replacement: 65 });
    assert_eq!(attempt_to(64 + 7, 128), Attempt { observed: 71, replacement: 128 });
    assert_eq!(attempt_to(128 + 3, 64), Attempt { observed: 131, replacement: 68 });
    assert_eq!(attempt_to(64 + 7, 0), Attempt { observed: 71, replacement: 0 });
    assert_eq!(top(5), None);
    assert_eq!(top(64 + 5), Some(64));
}

#[test]
fn head_words_hold_an_address_and_a_tag() {
    let tagged = TaggedPtr { ptr: 0x7fff_1230, tag: 13 };
    let word = tagged.to_word();
    assert_eq!(word, 0x7fff_1235);
    assert_eq!(TaggedPtr::from_word(word), TaggedPtr { ptr: 0x7fff_1230, tag: 5 });
    let last = TaggedPtr { ptr: usize::MAX - 7, tag: usize::MAX };
    assert_eq!(last.to_word(), usize::MAX);
}

#[test]
fn packing_merges_the_bits() {
    assert_eq!(TaggedPtr { ptr: 0x10, tag: 1 }.pack(), 0x18);
    assert_eq!(TaggedPtr { ptr: 0, tag: usize::MAX }.pack(), usize::MAX - 7);
    assert_eq!(TaggedPtr::unpack(0x18), TaggedPtr { ptr: 0x18, tag: 3 });
    assert_eq!(TaggedPtr::unpack(0x1f), TaggedPtr { ptr: 0x18, tag: 3 });
    assert_eq!(TaggedPtr::unpack(0x1f).pack(), 0x18);
    let agreeing = TaggedPtr { ptr: 0x40, tag: 8 };
    assert_eq!(TaggedPtr::unpack(agreeing.pack()), agreeing);
    let other = TaggedPtr { ptr: 0x10, tag: 1 };
    assert_ne!(TaggedPtr::unpack(other.pack()), other);
}
