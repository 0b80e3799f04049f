use spinlock::lock::read_fresh;
use spinlock::Mutex;

#[test]
fn fresh_lock_reads_initial_value() {
    let m = Mutex::new(42u64);
    assert_eq!(m.with_lock(|x| (x, x)), 42);
    let s = Mutex::new(String::from("abc"));
    assert_eq!(s.with_lock(|x| { let c = x.clone(); (x, c) }), "abc");
}

#[test]
fn fresh_lock_reads_zero() {
    let m = Mutex::new(0i32);
    assert_eq!(m.with_lock(|x| (x, x)), 0);
}

#[test]
fn with_lock_passes_result_through() {
    let m = Mutex::new(7u32);
    let r = m.with_lock(|x| (x, x * 3 + 1));
    assert_eq!(r, 22);
    assert_eq!(m.with_lock(|x| (x, x)), 7);
}

#[test]
fn with_lock_stores_new_value() {
    let m = Mutex::new(vec![1u8, 2]);
    m.with_lock(|mut v| {
        v.push(3);
        (v, ())
    });
    assert_eq!(m.with_lock(|v| { let c = v.clone(); (v, c) }), vec![1u8, 2, 3]);
}

#[test]
fn repeated_increments_are_all_kept() {
    let m = Mutex::new(0u64);
    let workers: u64 = 100;
    let share: u64 = 1000;
    let mut w: u64 = 0;
    while w < workers {
        let mut k: u64 = 0;
        while k < share {
            m.with_lock(|v| (v + 1, ()));
            k += 1;
        }
        w += 1;
    }
    assert_eq!(m.with_lock(|v| (v, v)), workers * share);
}

#[test]
fn lock_is_free_again_after_each_section() {
    let m = Mutex::new(1i64);
    let a = m.with_lock(|v| (v * 2, v));
    let b = m.with_lock(|v| (v * 2, v));
    let c = m.with_lock(|v| (v, v));
    assert_eq!((a, b, c), (1, 2, 4));
}

#[test]
fn read_fresh_returns_initial_value_twice() {
    assert_eq!(read_fresh(9u8), (9, 9));
    assert_eq!(read_fresh(-3i64), (-3, -3));
    assert_eq!(read_fresh((1u32, true)), ((1, true), (1, true)));
}
