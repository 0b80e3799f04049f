use spinlock::protocol::{contend, Contend};

#[test]
fn compare_and_swap_on_clear_flag_acquires() {
    assert_eq!(contend(Contend::Trying, false), (Contend::Acquired, true));
}

#[test]
fn compare_and_swap_on_set_flag_waits() {
    assert_eq!(contend(Contend::Trying, true), (Contend::Waiting, true));
}

#[test]
fn waiting_spins_while_flag_is_set() {
    assert_eq!(contend(Contend::Waiting, true), (Contend::Waiting, true));
}

#[test]
fn waiting_retries_once_flag_clears() {
    assert_eq!(contend(Contend::Waiting, false), (Contend::Trying, false));
}

#[test]
fn holder_stays_holder() {
    assert_eq!(contend(Contend::Acquired, true), (Contend::Acquired, true));
}

#[test]
fn holder_cannot_reacquire() {
    // The flag stays set while the holder is inside its critical section, so a
    // nested attempt never gets past the load spin.
    let (c1, f1) = contend(Contend::Trying, true);
    let (c2, f2) = contend(c1, f1);
    let (c3, f3) = contend(c2, f2);
    assert_eq!((c3, f3), (Contend::Waiting, true));
}

#[test]
fn two_contenders_one_winner() {
    let mut flag = false;
    let (a, f) = contend(Contend::Trying, flag);
    flag = f;
    let (b, f) = contend(Contend::Trying, flag);
    flag = f;
    assert_eq!(a, Contend::Acquired);
    assert_eq!(b, Contend::Waiting);
    assert!(flag);
}
