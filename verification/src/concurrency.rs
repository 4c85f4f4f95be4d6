//! Limiting how many operations run at once.
use crate::error::{ErrorView, TsinkError};
use core::time::Duration;
use parking_lot::lock_api;
use parking_lot::{Condvar, Mutex, MutexGuard, RawMutex};
use std::sync::Arc;
use std::time::Instant;
use vstd::prelude::*;

verus! {

/// The raw lock of `parking_lot`.
#[verifier::external_type_specification]
#[verifier::external_body]
pub struct ExRawMutex(RawMutex);

/// The mutex of `parking_lot`.
#[verifier::external_type_specification]
#[verifier::external_body]
#[verifier::reject_recursive_types(R)]
#[verifier::reject_recursive_types(T)]
pub struct ExMutex<R, T: ?Sized>(lock_api::Mutex<R, T>);

/// The condition variable of `parking_lot`.
#[verifier::external_type_specification]
#[verifier::external_body]
pub struct ExCondvar(Condvar);

/// A reading of the monotonic clock.
#[verifier::external_type_specification]
#[verifier::external_body]
pub struct ExInstant(Instant);

/// A locked mutex with its number of permits.
///
/// Holds the `MutexGuard` of `parking_lot`, which is bounded by a trait of that crate and
/// so cannot be a declared type itself.
#[verifier::external_body]
pub struct PermitsGuard<'a> {
    guard: MutexGuard<'a, usize>,
}

/// The number behind a guard.
pub uninterp spec fn guarded_permits(guard: PermitsGuard<'_>) -> usize;

/// The mutex that a guard holds locked.
pub uninterp spec fn guarded_mutex(guard: PermitsGuard<'_>) -> Mutex<usize>;

/// The deadline at which the last wait of a guard timed out, if it did. A guard that has not
/// waited has none.
pub uninterp spec fn timed_out_at(guard: PermitsGuard<'_>) -> Option<Instant>;

/// How the holder of a guard last waited for a demand.
pub uninterp spec fn waited(guard: PermitsGuard<'_>) -> Wait;

/// Somebody notified one waiter of a condition variable, and that is whether one was woken.
pub uninterp spec fn was_notified(condvar: Condvar, woken: bool) -> bool;

/// The number that a mutex was made with.
pub uninterp spec fn made_with(mutex: Mutex<usize>) -> usize;

/// The length of a duration in nanoseconds.
pub uninterp spec fn duration_nanos(duration: Duration) -> u128;

/// The nanoseconds from some origin of the clock to an instant.
pub uninterp spec fn instant_nanos(instant: Instant) -> int;

/// The instant that much later than another, where it can be represented.
pub uninterp spec fn instant_sum(start: Instant, duration: Duration) -> Option<Instant>;

/// No more permits lie behind the guard than its mutex was made with.
pub open spec fn is_bounded(guard: PermitsGuard<'_>) -> bool {
    guarded_permits(guard) <= made_with(guarded_mutex(guard))
}

/// `Mutex::new`: a mutex that holds that number at first.
#[verifier::external_body]
fn new_mutex(permits: usize) -> (mutex: Mutex<usize>)
    ensures
        made_with(mutex) == permits,
{
    Mutex::new(permits)
}

/// `Condvar::new`: a condition variable that nobody waits on.
#[verifier::external_body]
fn new_condvar() -> (condvar: Condvar) {
    Condvar::new()
}

/// `Mutex::lock`: a guard of this mutex that has not waited on a condition. The number behind
/// it is whatever the last holder left there, or what the mutex was made with: mutexes are
/// made, and numbers replaced, by the functions here alone, and those never put more behind a
/// guard than its mutex was made with.
#[verifier::external_body]
fn lock(mutex: &Mutex<usize>) -> (guard: PermitsGuard<'_>)
    ensures
        guarded_mutex(guard) == *mutex,
        is_bounded(guard),
        waited(guard) == Wait::Not,
        timed_out_at(guard) is None,
    opens_invariants none
    no_unwind
{
    PermitsGuard { guard: mutex.lock() }
}

/// `Deref::deref` of `MutexGuard`: the number behind the guard.
#[verifier::external_body]
fn permits_behind(guard: &PermitsGuard<'_>) -> (permits: usize)
    ensures
        permits == guarded_permits(*guard),
    opens_invariants none
    no_unwind
{
    *guard.guard
}

/// `DerefMut::deref_mut` of `MutexGuard`: replaces the number behind the guard, which
/// guards the same mutex.
#[verifier::external_body]
fn set_permits_behind(guard: &mut PermitsGuard<'_>, permits: usize)
    requires
        permits <= made_with(guarded_mutex(*old(guard))),
    ensures
        guarded_permits(*final(guard)) == permits,
        guarded_mutex(*final(guard)) == guarded_mutex(*old(guard)),
        waited(*final(guard)) == waited(*old(guard)),
        timed_out_at(*final(guard)) == timed_out_at(*old(guard)),
    opens_invariants none
    no_unwind
{
    *guard.guard = permits;
}

/// `Condvar::wait_while`: waits until the demand can be met, without a deadline. The guard
/// is given up while waiting and holds the same mutex afterwards.
#[verifier::external_body]
fn wait_while(semaphore: &Semaphore, guard: &mut PermitsGuard<'_>, demand: Demand)
    requires
        guarded_mutex(*old(guard)) == semaphore.mutex(),
    ensures
        can_meet(guarded_permits(*final(guard)), demand),
        guarded_mutex(*final(guard)) == guarded_mutex(*old(guard)),
        is_bounded(*final(guard)),
        waited(*final(guard)) == Wait::Forever,
        timed_out_at(*final(guard)) is None,
{
    semaphore.condvar.wait_while(&mut guard.guard, |permits| must_wait(*permits, demand))
}

/// `Condvar::wait_while_until`: waits until the demand can be met or the deadline is
/// reached, and tells whether it was. The guard is given up while waiting and holds the same
/// mutex afterwards. Whether the demand can be met at the deadline is left open.
#[verifier::external_body]
fn wait_while_until(
    semaphore: &Semaphore,
    guard: &mut PermitsGuard<'_>,
    demand: Demand,
    deadline: Instant,
) -> (timed_out: bool)
    requires
        guarded_mutex(*old(guard)) == semaphore.mutex(),
    ensures
        !timed_out ==> can_meet(guarded_permits(*final(guard)), demand),
        timed_out_at(*final(guard)) == (if timed_out {
            Some(deadline)
        } else {
            None
        }),
        waited(*final(guard)) == Wait::Until(deadline),
        guarded_mutex(*final(guard)) == guarded_mutex(*old(guard)),
        is_bounded(*final(guard)),
{
    semaphore.condvar.wait_while_until(
        &mut guard.guard,
        |permits| must_wait(*permits, demand),
        deadline,
    ).timed_out()
}

/// `Condvar::notify_one`: wakes one waiter, if there is any, and tells whether it did.
#[verifier::external_body]
fn notify_one(condvar: &Condvar) -> (woken: bool)
    ensures
        was_notified(*condvar, woken),
    opens_invariants none
    no_unwind
{
    condvar.notify_one()
}

/// `Duration::as_nanos`: the length in nanoseconds.
#[verifier::external_body]
fn as_nanos(duration: &Duration) -> (nanos: u128)
    ensures
        nanos == duration_nanos(*duration),
{
    duration.as_nanos()
}

/// `Instant::now`: what the clock says. Nothing is stated of it.
#[verifier::external_body]
fn clock_now() -> (now: Instant) {
    Instant::now()
}

/// `Instant::checked_add`: the instant that much later, where it can be represented. Which
/// instants can be is left to the name.
#[verifier::external_body]
fn instant_after(start: Instant, duration: Duration) -> (later: Option<Instant>)
    ensures
        later == instant_sum(start, duration),
        later matches Some(later) ==> instant_nanos(later) == instant_nanos(start)
            + duration_nanos(duration),
{
    start.checked_add(duration)
}

/// How long to wait.
pub enum Wait {
    /// Not at all.
    Not,
    /// Until a deadline.
    Until(Instant),
    /// As long as it takes, since the deadline would be beyond all instants.
    Forever,
}

/// How long to wait with a timeout that runs from `now` on. Without any time there is no
/// waiting.
pub open spec fn wait_of(now: Instant, timeout: Duration) -> Wait {
    if duration_nanos(timeout) == 0 {
        Wait::Not
    } else {
        match instant_sum(now, timeout) {
            Some(deadline) => Wait::Until(deadline),
            None => Wait::Forever,
        }
    }
}

/// How long to wait with a timeout that runs from `now` on.
pub fn wait_for(now: Instant, timeout: Duration) -> (wait: Wait)
    ensures
        wait == wait_of(now, timeout),
        wait matches Wait::Until(deadline) ==> instant_nanos(deadline) == instant_nanos(now)
            + duration_nanos(timeout),
{
    if as_nanos(&timeout) == 0 {
        return Wait::Not;
    }
    match instant_after(now, timeout) {
        Some(deadline) => Wait::Until(deadline),
        None => Wait::Forever,
    }
}

/// What is wanted of a semaphore.
#[derive(Debug, Clone, Copy, PartialEq, Eq, Structural)]
pub enum Demand {
    /// One permit.
    One,
    /// All permits at once, so that nobody else has one.
    All { capacity: usize },
}

/// Whether a demand can be met with that many permits available.
pub open spec fn can_meet(permits: usize, demand: Demand) -> bool {
    match demand {
        Demand::One => permits > 0,
        Demand::All { capacity } => permits == capacity,
    }
}

/// Whether a demand cannot be met yet.
pub fn must_wait(permits: usize, demand: Demand) -> (wait: bool)
    ensures
        wait == !can_meet(permits, demand),
{
    match demand {
        Demand::One => permits == 0,
        Demand::All { capacity } => permits != capacity,
    }
}

/// The permits left when a demand is met.
pub open spec fn left_after(permits: usize, demand: Demand) -> usize {
    match demand {
        Demand::One => (permits - 1) as usize,
        Demand::All { .. } => 0,
    }
}

/// The permits left when a demand is met, if it can be.
pub fn take_permits(permits: usize, demand: Demand) -> (left: Option<usize>)
    ensures
        left == (if can_meet(permits, demand) {
            Some(left_after(permits, demand))
        } else {
            None
        }),
{
    if must_wait(permits, demand) {
        return None;
    }
    match demand {
        Demand::One => Some(permits - 1),
        Demand::All { .. } => Some(0),
    }
}

/// The permits available after one is given back. There are never more than the capacity.
pub open spec fn after_release(permits: usize, capacity: usize) -> usize {
    if permits < capacity {
        (permits + 1) as usize
    } else {
        permits
    }
}

/// The permits available after one is given back.
pub fn give_back(permits: usize, capacity: usize) -> (available: usize)
    ensures
        available == after_release(permits, capacity),
    opens_invariants none
    no_unwind
{
    if permits < capacity {
        permits + 1
    } else {
        permits
    }
}

/// A semaphore for limiting concurrent operations.
pub struct Semaphore {
    permits: Arc<Mutex<usize>>,
    max_permits: usize,
    condvar: Arc<Condvar>,
}

/// Releases a permit of a semaphore when dropped.
pub struct SemaphoreGuard<'a> {
    semaphore: &'a Semaphore,
}

impl<'a> SemaphoreGuard<'a> {
    /// The semaphore that the guard has a permit of.
    pub closed spec fn semaphore(&self) -> Semaphore {
        *self.semaphore
    }
}

/// The error for a demand that was not met in time.
pub open spec fn write_timeout(timeout: Duration, capacity: usize) -> ErrorView {
    ErrorView::WriteTimeout {
        timeout_ms: (duration_nanos(timeout) / 1_000_000) as u64,
        workers: capacity,
    }
}

impl Semaphore {
    /// How many permits there are in all.
    pub closed spec fn spec_capacity(&self) -> usize {
        self.max_permits
    }

    /// The mutex around the number of available permits.
    pub closed spec fn mutex(&self) -> Mutex<usize> {
        *self.permits
    }

    /// Where those wait that want permits.
    pub closed spec fn waiting_room(&self) -> Condvar {
        *self.condvar
    }

    /// The mutex holds at most as many permits as there are, and there is one at least.
    #[verifier::type_invariant]
    spec fn wf(self) -> bool {
        &&& self.max_permits > 0
        &&& made_with(*self.permits) == self.max_permits
    }

    /// Under the lock, that many permits were available.
    pub open spec fn had(&self, permits: usize) -> bool {
        &&& permits <= self.spec_capacity()
        &&& exists|guard: PermitsGuard<'_>| #[trigger]
            guarded_mutex(guard) == self.mutex() && guarded_permits(guard) == permits
    }

    /// Under the lock, and after waiting so, a demand could be met, and it was: what is left
    /// is what meeting it leaves.
    pub open spec fn met(&self, demand: Demand, wait: Wait) -> bool {
        exists|before: PermitsGuard<'_>, after: PermitsGuard<'_>|
            {
                &&& #[trigger] guarded_mutex(before) == self.mutex()
                &&& #[trigger] guarded_mutex(after) == self.mutex()
                &&& waited(before) == wait
                &&& waited(after) == wait
                &&& guarded_permits(before) <= self.spec_capacity()
                &&& can_meet(guarded_permits(before), demand)
                &&& guarded_permits(after) == left_after(guarded_permits(before), demand)
            }
    }

    /// Under the lock, and after waiting so, a demand could not be met. Where there was a
    /// deadline, it was reached.
    pub open spec fn refused(&self, demand: Demand, wait: Wait) -> bool {
        exists|guard: PermitsGuard<'_>|
            {
                &&& #[trigger] guarded_mutex(guard) == self.mutex()
                &&& waited(guard) == wait
                &&& wait !is Forever
                &&& timed_out_at(guard) == (match wait {
                    Wait::Until(deadline) => Some(deadline),
                    _ => None,
                })
                &&& guarded_permits(guard) <= self.spec_capacity()
                &&& !can_meet(guarded_permits(guard), demand)
            }
    }

    /// A demand was met after waiting as a timeout says that runs from some start on.
    pub open spec fn met_within(&self, demand: Demand, timeout: Duration) -> bool {
        exists|start: Instant| self.met(demand, #[trigger] wait_of(start, timeout))
    }

    /// A demand was refused after waiting as a timeout says that runs from some start on.
    pub open spec fn refused_within(&self, demand: Demand, timeout: Duration) -> bool {
        exists|start: Instant| self.refused(demand, #[trigger] wait_of(start, timeout))
    }

    /// A semaphore with that many permits, but at least one. All of them are available at
    /// first.
    pub fn new(permits: usize) -> (semaphore: Self)
        ensures
            semaphore.spec_capacity() == (if permits == 0 {
                1
            } else {
                permits
            }),
            made_with(semaphore.mutex()) == semaphore.spec_capacity(),
    {
        let permits = if permits == 0 {
            1
        } else {
            permits
        };
        Semaphore {
            permits: Arc::new(new_mutex(permits)),
            max_permits: permits,
            condvar: Arc::new(new_condvar()),
        }
    }

    /// Takes a permit, waiting for one as long as it takes.
    pub fn acquire(&self) -> (guard: SemaphoreGuard<'_>)
        ensures
            guard.semaphore() == *self,
            self.met(Demand::One, Wait::Forever),
    {
        let mut permits = lock(&self.permits);
        wait_while(self, &mut permits, Demand::One);
        self.take(&mut permits, Demand::One);
        SemaphoreGuard { semaphore: self }
    }

    /// Meets a demand under the lock, if that is possible.
    fn take(&self, guard: &mut PermitsGuard<'_>, demand: Demand) -> (taken: bool)
        requires
            guarded_mutex(*old(guard)) == self.mutex(),
            is_bounded(*old(guard)),
        ensures
            taken == can_meet(guarded_permits(*old(guard)), demand),
            guarded_mutex(*final(guard)) == self.mutex(),
            taken ==> guarded_permits(*final(guard)) == left_after(
                guarded_permits(*old(guard)),
                demand,
            ) && self.met(demand, waited(*old(guard))),
            !taken ==> *final(guard) == *old(guard),
            guarded_permits(*old(guard)) <= self.spec_capacity(),
    {
        let ghost before = *guard;
        proof {
            use_type_invariant(self);
        }
        match take_permits(permits_behind(guard), demand) {
            Some(left) => {
                set_permits_behind(guard, left);
                proof {
                    assert(guarded_mutex(before) == self.mutex());
                    assert(guarded_mutex(*guard) == self.mutex());
                }
                true
            },
            None => false,
        }
    }

    /// Takes a permit if one is available now.
    pub fn try_acquire(&self) -> (guard: Option<SemaphoreGuard<'_>>)
        ensures
            match guard {
                Some(guard) => guard.semaphore() == *self && self.met(Demand::One, Wait::Not),
                None => self.refused(Demand::One, Wait::Not),
            },
    {
        let mut permits = lock(&self.permits);
        if self.take(&mut permits, Demand::One) {
            Some(SemaphoreGuard { semaphore: self })
        } else {
            assert(guarded_mutex(permits) == self.mutex());
            None
        }
    }

    /// Waits under the lock until a demand can be met, as long as is given.
    fn wait(&self, guard: &mut PermitsGuard<'_>, demand: Demand, wait: &Wait)
        requires
            guarded_mutex(*old(guard)) == self.mutex(),
            is_bounded(*old(guard)),
            waited(*old(guard)) == Wait::Not,
            timed_out_at(*old(guard)) is None,
        ensures
            guarded_mutex(*final(guard)) == self.mutex(),
            is_bounded(*final(guard)),
            waited(*final(guard)) == *wait,
            match *wait {
                Wait::Not => *final(guard) == *old(guard),
                Wait::Until(deadline) => can_meet(guarded_permits(*final(guard)), demand)
                    || timed_out_at(*final(guard)) == Some(deadline),
                Wait::Forever => can_meet(guarded_permits(*final(guard)), demand),
            },
    {
        match wait {
            Wait::Not => {},
            Wait::Until(deadline) => {
                wait_while_until(self, guard, demand, *deadline);
            },
            Wait::Forever => {
                wait_while(self, guard, demand);
            },
        }
    }

    /// Meets a demand, waiting for that until the time is up. The time runs from the call
    /// on, also while the lock is waited for.
    fn take_within(&self, demand: Demand, timeout: Duration) -> (outcome: Result<(), TsinkError>)
        ensures
            match outcome {
                Ok(()) => self.met_within(demand, timeout),
                Err(error) => {
                    &&& self.refused_within(demand, timeout)
                    &&& error@ == write_timeout(timeout, self.spec_capacity())
                },
            },
    {
        let start = clock_now();
        let wait = wait_for(start, timeout);
        let mut permits = lock(&self.permits);
        self.wait(&mut permits, demand, &wait);
        if self.take(&mut permits, demand) {
            assert(self.met(demand, wait_of(start, timeout)));
            return Ok(());
        }
        proof {
            assert(guarded_mutex(permits) == self.mutex());
            assert(self.refused(demand, wait_of(start, timeout)));
        }
        Err(
            TsinkError::WriteTimeout {
                timeout_ms: (as_nanos(&timeout) / 1_000_000) as u64,
                workers: self.max_permits,
            },
        )
    }

    /// Takes a permit, waiting for one until the time is up. With no time at all it takes
    /// one only if it is available now.
    pub fn try_acquire_for(&self, timeout: Duration) -> (guard: Result<
        SemaphoreGuard<'_>,
        TsinkError,
    >)
        ensures
            match guard {
                Ok(guard) => guard.semaphore() == *self && self.met_within(Demand::One, timeout),
                Err(error) => {
                    &&& self.refused_within(Demand::One, timeout)
                    &&& error@ == write_timeout(timeout, self.spec_capacity())
                },
            },
    {
        match self.take_within(Demand::One, timeout) {
            Ok(()) => Ok(SemaphoreGuard { semaphore: self }),
            Err(error) => Err(error),
        }
    }

    /// Takes all permits at once, waiting until nobody else has one or the time is up. No
    /// permit is taken before all can be.
    pub fn acquire_all(&self, timeout: Duration) -> (guards: Result<
        Vec<SemaphoreGuard<'_>>,
        TsinkError,
    >)
        ensures
            match guards {
                Ok(guards) => {
                    &&& guards@.len() == self.spec_capacity()
                    &&& forall|i: int|
                        0 <= i < guards@.len() ==> (#[trigger] guards@[i]).semaphore() == *self
                    &&& self.met_within(Demand::All { capacity: self.spec_capacity() }, timeout)
                },
                Err(error) => {
                    &&& self.refused_within(Demand::All { capacity: self.spec_capacity() }, timeout)
                    &&& error@ == write_timeout(timeout, self.spec_capacity())
                },
            },
    {
        match self.take_within(Demand::All { capacity: self.max_permits }, timeout) {
            Ok(()) => {},
            Err(error) => {
                return Err(error);
            },
        }
        let mut guards: Vec<SemaphoreGuard<'_>> = Vec::new();
        while guards.len() < self.max_permits
            invariant
                guards@.len() <= self.max_permits,
                forall|i: int|
                    0 <= i < guards@.len() ==> (#[trigger] guards@[i]).semaphore() == *self,
            decreases self.max_permits - guards@.len(),
        {
            guards.push(SemaphoreGuard { semaphore: self });
        }
        Ok(guards)
    }

    /// How many permits there are in all.
    pub fn capacity(&self) -> (capacity: usize)
        ensures
            capacity == self.spec_capacity(),
            capacity > 0,
    {
        proof {
            use_type_invariant(self);
        }
        self.max_permits
    }

    /// Under the lock, a permit was given back, and one waiter was notified.
    pub open spec fn released(&self) -> bool {
        &&& exists|permits: usize| #[trigger]
            self.had(permits) && self.had(after_release(permits, self.spec_capacity()))
        &&& exists|woken: bool| was_notified(self.waiting_room(), woken)
    }

    /// Gives a permit back, and wakes one waiter.
    fn release(&self)
        ensures
            self.released(),
        opens_invariants none
        no_unwind
    {
        proof {
            use_type_invariant(self);
        }
        let mut permits = lock(&self.permits);
        let ghost before = permits;
        let available = give_back(permits_behind(&permits), self.max_permits);
        set_permits_behind(&mut permits, available);
        proof {
            assert(guarded_mutex(before) == self.mutex());
            assert(self.had(guarded_permits(before)));
            assert(guarded_mutex(permits) == self.mutex());
            assert(self.had(available));
        }
        let woken = notify_one(&self.condvar);
        assert(was_notified(self.waiting_room(), woken));
    }

    /// How many permits are available now. There are never more than the capacity.
    pub fn available_permits(&self) -> (permits: usize)
        ensures
            self.had(permits),
            permits <= self.spec_capacity(),
    {
        proof {
            use_type_invariant(self);
        }
        let permits = lock(&self.permits);
        permits_behind(&permits)
    }
}

impl Clone for Semaphore {
    /// Another handle of the same semaphore, which shares its permits.
    fn clone(&self) -> (copy: Self)
        ensures
            copy.mutex() == self.mutex(),
            copy.waiting_room() == self.waiting_room(),
            copy.spec_capacity() == self.spec_capacity(),
    {
        proof {
            use_type_invariant(self);
        }
        Semaphore {
            permits: self.permits.clone(),
            max_permits: self.max_permits,
            condvar: self.condvar.clone(),
        }
    }
}

impl<'a> Drop for SemaphoreGuard<'a> {
    /// Gives the permit back, and wakes one waiter.
    fn drop(&mut self)
        ensures
            old(self).semaphore().released(),
        opens_invariants none
        no_unwind
    {
        self.semaphore.release();
    }
}

/// There are never more permits available than the capacity: neither meeting a demand nor
/// giving a permit back leads beyond it.
pub proof fn law_permits_never_exceed_the_capacity(
    available: usize,
    capacity: usize,
    demand: Demand,
)
    requires
        available <= capacity,
    ensures
        can_meet(available, demand) ==> left_after(available, demand) <= capacity,
        after_release(available, capacity) <= capacity,
{
}

/// Every permit is either available or held: meeting a demand hands out what it takes, and
/// giving one back takes one in.
pub proof fn law_permits_are_conserved(
    available: usize,
    held: nat,
    capacity: usize,
    demand: Demand,
)
    requires
        available + held == capacity,
        demand is All ==> demand->All_capacity == capacity,
    ensures
        can_meet(available, demand) ==> left_after(available, demand) + held + (match demand {
            Demand::One => 1,
            Demand::All { capacity } => capacity as int,
        }) == capacity,
        held > 0 ==> after_release(available, capacity) + (held - 1) == capacity,
{
}

/// Giving back what one demand took restores what was available.
pub proof fn law_giving_back_undoes_taking(available: usize, capacity: usize)
    requires
        available <= capacity,
        can_meet(available, Demand::One),
    ensures
        after_release(left_after(available, Demand::One), capacity) == available,
{
}

/// What is available after so many permits are given back.
pub open spec fn after_releases(available: usize, capacity: usize, times: nat) -> usize
    decreases times,
{
    if times == 0 {
        available
    } else {
        after_release(after_releases(available, capacity, (times - 1) as nat), capacity)
    }
}

/// Giving back everything that a demand for all took restores all of it, and one more
/// release adds nothing.
pub proof fn law_all_comes_back(capacity: usize, times: nat)
    ensures
        after_releases(0, capacity, times) == (if times <= capacity {
            times
        } else {
            capacity as nat
        }),
    decreases times,
{
    if times > 0 {
        law_all_comes_back(capacity, (times - 1) as nat);
    }
}

/// All permits go to one holder or to none: a demand for all is met only while nobody
/// holds a permit, and while it is held no other demand is met.
pub proof fn law_permits_are_never_split(available: usize, held: nat, capacity: usize)
    requires
        capacity > 0,
        available + held == capacity,
        can_meet(available, Demand::All { capacity }),
    ensures
        held == 0,
        !can_meet(left_after(available, Demand::All { capacity }), Demand::One),
        !can_meet(
            left_after(available, Demand::All { capacity }),
            Demand::All { capacity },
        ),
{
}

/// A demand for one permit is met exactly while one is available, and leaves one less; a demand
/// for all exactly while all are, and leaves none. Giving one back adds one while there are fewer
/// than the capacity, and else nothing.
pub proof fn law_demands_are_met_while_they_can_be(available: usize, capacity: usize)
    ensures
        can_meet(available, Demand::One) <==> available >= 1,
        available >= 1 ==> left_after(available, Demand::One) + 1 == available,
        can_meet(available, Demand::All { capacity }) <==> available == capacity,
        left_after(available, Demand::All { capacity }) == 0,
        available < capacity ==> after_release(available, capacity) == available + 1,
        available >= capacity ==> after_release(available, capacity) == available,
{
}

/// A refusal reports the capacity, and the timeout in whole milliseconds, rounded down.
pub proof fn law_refusals_report_timeout_and_capacity(timeout: Duration, capacity: usize)
    requires
        duration_nanos(timeout) / 1_000_000 <= u64::MAX,
    ensures
        write_timeout(timeout, capacity) matches ErrorView::WriteTimeout { timeout_ms, workers } && {
            &&& workers == capacity
            &&& timeout_ms * 1_000_000 <= duration_nanos(timeout) < (timeout_ms + 1) * 1_000_000
        },
{
}

/// Without any time there is no waiting. With some, waiting ends at the instant that much later,
/// or never where there is no such instant.
pub proof fn law_waiting_ends_when_the_time_is_up(now: Instant, timeout: Duration)
    ensures
        wait_of(now, timeout) is Not <==> duration_nanos(timeout) == 0,
        wait_of(now, timeout) is Forever ==> instant_sum(now, timeout) is None,
        wait_of(now, timeout) matches Wait::Until(deadline) ==> instant_sum(now, timeout) == Some(
            deadline,
        ),
{
}

/// A semaphore whose demand was met had the permits for it under the lock, after just that
/// waiting, and was left with fewer by as many: one for a demand for one, all of them for a
/// demand for all.
pub proof fn law_met_demand_took_its_permits(semaphore: Semaphore, demand: Demand, wait: Wait)
    requires
        semaphore.met(demand, wait),
    ensures
        exists|before: PermitsGuard<'_>, after: PermitsGuard<'_>|
            {
                &&& #[trigger] guarded_mutex(before) == semaphore.mutex()
                &&& #[trigger] guarded_mutex(after) == semaphore.mutex()
                &&& waited(before) == wait
                &&& waited(after) == wait
                &&& guarded_permits(before) <= semaphore.spec_capacity()
                &&& match demand {
                    Demand::One => guarded_permits(after) + 1 == guarded_permits(before),
                    Demand::All { capacity } => guarded_permits(before) == capacity
                        && guarded_permits(after) == 0,
                }
            },
{
    let (before, after) = choose|before: PermitsGuard<'_>, after: PermitsGuard<'_>|
        {
            &&& #[trigger] guarded_mutex(before) == semaphore.mutex()
            &&& #[trigger] guarded_mutex(after) == semaphore.mutex()
            &&& waited(before) == wait
            &&& waited(after) == wait
            &&& guarded_permits(before) <= semaphore.spec_capacity()
            &&& can_meet(guarded_permits(before), demand)
            &&& guarded_permits(after) == left_after(guarded_permits(before), demand)
        };
    assert(guarded_mutex(before) == semaphore.mutex());
    assert(guarded_mutex(after) == semaphore.mutex());
}

/// A semaphore that refused a demand lacked the permits for it under the lock: it had none for a
/// demand for one, and fewer than all for a demand for all. It waited just so, and not without an
/// end: where there was a deadline, that was reached.
pub proof fn law_refused_demand_lacked_its_permits(
    semaphore: Semaphore,
    demand: Demand,
    wait: Wait,
)
    requires
        semaphore.refused(demand, wait),
        demand is All ==> demand->capacity == semaphore.spec_capacity(),
    ensures
        !(wait is Forever),
        exists|guard: PermitsGuard<'_>|
            {
                &&& #[trigger] guarded_mutex(guard) == semaphore.mutex()
                &&& waited(guard) == wait
                &&& wait matches Wait::Until(deadline) ==> timed_out_at(guard) == Some(deadline)
                &&& match demand {
                    Demand::One => guarded_permits(guard) == 0,
                    Demand::All { capacity } => guarded_permits(guard) < capacity,
                }
            },
{
    let guard = choose|guard: PermitsGuard<'_>|
        {
            &&& #[trigger] guarded_mutex(guard) == semaphore.mutex()
            &&& waited(guard) == wait
            &&& wait !is Forever
            &&& timed_out_at(guard) == (match wait {
                Wait::Until(deadline) => Some(deadline),
                _ => None,
            })
            &&& guarded_permits(guard) <= semaphore.spec_capacity()
            &&& !can_meet(guarded_permits(guard), demand)
        };
    assert(guarded_mutex(guard) == semaphore.mutex());
}

/// A semaphore that a permit was given back to had one more afterwards, unless it had all of them
/// already, and notified one of those that wait.
pub proof fn law_release_gives_one_back(semaphore: Semaphore)
    requires
        semaphore.released(),
    ensures
        exists|before: usize, after: usize|
            {
                &&& #[trigger] semaphore.had(before)
                &&& #[trigger] semaphore.had(after)
                &&& before < semaphore.spec_capacity() ==> after == before + 1
                &&& before == semaphore.spec_capacity() ==> after == before
            },
        exists|woken: bool| was_notified(semaphore.waiting_room(), woken),
{
    let before = choose|permits: usize| #[trigger]
        semaphore.had(permits) && semaphore.had(
            after_release(permits, semaphore.spec_capacity()),
        );
    assert(semaphore.had(before));
    assert(semaphore.had(after_release(before, semaphore.spec_capacity())));
}

/// Permits that a semaphore had are no more than there are, and were seen under its lock.
pub proof fn law_permits_are_seen_under_the_lock(semaphore: Semaphore, permits: usize)
    requires
        semaphore.had(permits),
    ensures
        permits <= semaphore.spec_capacity(),
        exists|guard: PermitsGuard<'_>| #[trigger]
            guarded_mutex(guard) == semaphore.mutex() && guarded_permits(guard) == permits,
{
}

/// A demand with a timeout is met or refused after waiting as the timeout says: not at all
/// without any time, and otherwise until a deadline that much after some start, or without an end
/// where there is no such instant.
pub proof fn law_timeouts_bound_the_waiting(
    semaphore: Semaphore,
    demand: Demand,
    timeout: Duration,
    met: bool,
) -> (wait: Wait)
    requires
        if met {
            semaphore.met_within(demand, timeout)
        } else {
            semaphore.refused_within(demand, timeout)
        },
    ensures
        if met {
            semaphore.met(demand, wait)
        } else {
            semaphore.refused(demand, wait)
        },
        duration_nanos(timeout) == 0 <==> wait is Not,
        wait matches Wait::Until(deadline) ==> exists|start: Instant| #[trigger]
            instant_sum(start, timeout) == Some(deadline),
        wait is Forever ==> exists|start: Instant| #[trigger] instant_sum(start, timeout) is None,
{
    let start = if met {
        choose|start: Instant| semaphore.met(demand, #[trigger] wait_of(start, timeout))
    } else {
        choose|start: Instant| semaphore.refused(demand, #[trigger] wait_of(start, timeout))
    };
    assert(wait_of(start, timeout) is Until ==> instant_sum(start, timeout) is Some);
    wait_of(start, timeout)
}

} // verus!
