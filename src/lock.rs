use vstd::prelude::*;
use vstd::rwlock::RwLock;

verus! {

/// A mutual-exclusion lock guarding one value of type `T`.
///
/// The value lives in vstd's verified `RwLock`, used in exclusive mode only:
/// a holder takes the value out after the compare-and-swap of the lock flag
/// from unlocked to locked succeeds, and puts it back when it releases the
/// flag. The lock carries an invariant on the value, fixed at construction;
/// every critical section finds it true and must leave it true.
///
/// Waiting is done by that `RwLock`, not by a test-and-test-and-set loop of
/// this crate: it retries the compare-and-swap at once after each failure, and
/// then polls its reader count, which stays zero here since no reader is ever
/// taken. A spin loop that may never end cannot be verified in this crate, so
/// the test-and-test-and-set steps stand only as the `contend` decision and
/// the model in `protocol`, which the lock does not run.
#[verifier::reject_recursive_types(T)]
pub struct Mutex<T> {
    cell: RwLock<T, spec_fn(T) -> bool>,
}

impl<T> Mutex<T> {
    /// The invariant that the protected value satisfies whenever the lock is free.
    pub closed spec fn inv(&self, v: T) -> bool {
        self.cell.inv(v)
    }

    /// A lock over `t` whose invariant admits every value.
    pub fn new(t: T) -> (m: Self)
        ensures
            forall|v: T| m.inv(v),
    {
        Mutex { cell: RwLock::new(t, Ghost(|v: T| true)) }
    }

    /// A lock over `t` whose invariant is `inv`.
    pub fn new_with_invariant(t: T, Ghost(inv): Ghost<spec_fn(T) -> bool>) -> (m: Self)
        requires
            inv(t),
        ensures
            forall|v: T| m.inv(v) == inv(v),
    {
        Mutex { cell: RwLock::new(t, Ghost(inv)) }
    }

    /// Runs `action` once on the protected value while holding the lock.
    ///
    /// `action` receives the value and hands back its new value together with
    /// the result, which is returned unchanged. The lock is released after
    /// `action` returns. A holder that calls `with_lock` on the same lock from
    /// inside `action` waits forever: the lock is not reentrant.
    ///
    /// If `action` panics, the value is lost with it and the lock is never
    /// released: every later `with_lock` on this lock waits forever. The lock
    /// is not poisoned and no guard releases it on unwinding; this is the
    /// chosen policy, not an omission.
    pub fn with_lock<R, F: FnOnce(T) -> (T, R)>(&self, action: F) -> (r: R)
        requires
            forall|v: T| self.inv(v) ==> action.requires((v,)),
            forall|v: T, out: (T, R)| self.inv(v) && action.ensures((v,), out) ==> self.inv(out.0),
        ensures
            exists|v: T, nv: T| self.inv(v) && self.inv(nv) && action.ensures((v,), (nv, r)),
    {
        let (v, handle) = self.cell.acquire_write();
        let (nv, r) = action(v);
        handle.release_write(nv);
        r
    }
}

/// A fresh lock hands back the value it was made with: on a lock over `v`,
/// a first critical section that only reads returns `v`, and leaves `v` in
/// place for the next one.
///
/// The lock is made with the invariant "equal to `v`", which the reading
/// section keeps; the contracts of `new_with_invariant` and `with_lock` alone
/// give the result.
pub fn read_fresh<T: Copy>(v: T) -> (r: (T, T))
    ensures
        r == (v, v),
{
    let m = Mutex::new_with_invariant(v, Ghost(|x: T| x == v));
    let first = m.with_lock(|x: T| -> (o: (T, T)) ensures o == (x, x) { (x, x) });
    let second = m.with_lock(|x: T| -> (o: (T, T)) ensures o == (x, x) { (x, x) });
    (first, second)
}

} // verus!
