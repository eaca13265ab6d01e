use nvalloc::util::{align_down, align_up, Atomic, AtomicStack};

#[test]
fn atomic_stack() {
    let mut stack = AtomicStack::new(10);
    stack.push(10).unwrap();
    stack.push(1).unwrap();
    assert_eq!(stack.pop(), Ok(1));
    assert_eq!(stack.pop(), Ok(10));
    assert_eq!(stack.pop(), Err(()));

    const THREADS: usize = 4;
    const N: usize = 10;
    let mut shared = AtomicStack::new(THREADS * 4);
    for t in 0..THREADS {
        shared.push(t as u64).unwrap();
    }
    for _ in 0..THREADS {
        for i in 0..N {
            let v = shared.pop().unwrap();
            shared.push(v + i as u64).unwrap();
        }
    }

    let mut count = 0;
    let mut sum = 0;
    while let Ok(v) = shared.pop() {
        count += 1;
        sum += v;
        println!("{v}")
    }
    assert_eq!(count, 4);
    assert_eq!(
        sum,
        ((1..THREADS).sum::<usize>() + THREADS * (1..N).sum::<usize>()) as u64
    )
}

#[test]
fn atomic_stack_full() {
    let mut stack = AtomicStack::new(2);
    assert_eq!(stack.push(1), Ok(()));
    assert_eq!(stack.push(2), Ok(()));
    assert_eq!(stack.push(3), Err(()));
    assert_eq!(stack.pop(), Ok(2));
}

#[test]
fn align() {
    assert_eq!(align_up(4097, 4096), 8192);
    assert_eq!(align_up(4096, 4096), 4096);
    assert_eq!(align_up(0, 64), 0);
    assert_eq!(align_down(4097, 4096), 4096);
    assert_eq!(align_down(4095, 4096), 0);
}

#[test]
fn atomic_word() {
    let mut a: Atomic<u64> = Atomic::new(5);
    assert_eq!(a.load(), 5);
    assert_eq!(a.compare_exchange(4, 9), Err(5));
    assert_eq!(a.compare_exchange(5, 9), Ok(5));
    assert_eq!(a.swap(11), 9);
    assert_eq!(a.fetch_update(|v| if v > 10 { Some(v + 1) } else { None }), Ok(11));
    assert_eq!(a.fetch_update(|v| if v > 100 { Some(v + 1) } else { None }), Err(12));
    a.store(1);
    assert_eq!(a.load(), 1);
}
