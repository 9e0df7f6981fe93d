use crate::laws::lemma_next_live_bounds;
use crate::registry::{woken_by, with_interest, Direction, InterestRegistry, RawFd, TaskId};
use std::collections::{BTreeMap, BTreeSet, VecDeque};
use vstd::prelude::*;

verus! {

/// What one step of a computation reported.
#[derive(Clone, Copy, Debug, PartialEq, Eq, Structural)]
pub enum Step {
    /// The computation produced its result; its task is finished.
    Complete,
    /// The computation yielded and arranged to be woken later.
    Suspended,
}

/// What the driver has to do next.
pub enum Next<T> {
    /// Step the computation of the given task once, then hand the task
    /// back with [`EventLoop::settle`].
    Step(TaskId, T),
    /// Block on the readiness multiplexer over the registered descriptors,
    /// then report what became ready with [`EventLoop::dispatch_ready`].
    Block,
    /// Every task has completed: the loop is over.
    Exit,
}

/// Index in `q` of the first wakeup whose task is waiting in `w`, or the
/// length of `q` when every wakeup in it is stale.
pub open spec fn next_live(q: Seq<TaskId>, w: Set<TaskId>) -> nat
    decreases q.len(),
{
    if q.len() == 0 {
        0
    } else if w.contains(q[0]) {
        0
    } else {
        1 + next_live(q.drop_first(), w)
    }
}

/// The tasks stepped, in order, when a drain pass consumes the wakeups `q`
/// with `w` the tasks that are waiting and not yet stepped in the pass.
/// Whatever a step reports, its task is not stepped again in the pass, so
/// it leaves `w` for the rest of it.
pub open spec fn drain_pass(q: Seq<TaskId>, w: Set<TaskId>) -> Seq<TaskId>
    decreases q.len(),
{
    let k = next_live(q, w);
    if k < q.len() {
        seq![q[k as int]] + drain_pass(q.skip(k as int + 1), w.remove(q[k as int]))
    } else {
        Seq::empty()
    }
}

/// The scheduler state: interest registry, wait queue, run queue and the
/// task-identifier counter. A drain pass consumes the wakeups that were
/// queued when it started; those queued during the pass are carried over to
/// the next one.
pub struct EventLoop<T> {
    interests: InterestRegistry,
    counter: usize,
    wait_queue: BTreeMap<TaskId, T>,
    run_queue: VecDeque<TaskId>,
    stepped: BTreeSet<TaskId>,
    pass_left: usize,
}

impl<T> EventLoop<T> {
    /// Suspended tasks, by identifier.
    pub closed spec fn waiting(&self) -> Map<TaskId, T> {
        self.wait_queue@
    }

    /// Pending wakeups, oldest first.
    pub closed spec fn pending(&self) -> Seq<TaskId> {
        self.run_queue@
    }

    /// How many wakeups at the front of the run queue still belong to the
    /// current drain pass.
    pub closed spec fn pass_len(&self) -> nat {
        self.pass_left as nat
    }

    /// The wakeups left in the current drain pass, oldest first.
    pub open spec fn pass(&self) -> Seq<TaskId> {
        self.pending().take(self.pass_len() as int)
    }

    /// Tasks already handed out for stepping in the current drain pass.
    pub closed spec fn stepped(&self) -> Set<TaskId> {
        self.stepped@
    }

    /// Tasks that a wakeup may still hand out in the current drain pass:
    /// waiting, and not yet stepped in it.
    pub open spec fn live(&self) -> Set<TaskId> {
        self.waiting().dom().difference(self.stepped())
    }

    /// The identifier the next submitted task receives.
    pub closed spec fn next_id(&self) -> nat {
        self.counter as nat
    }

    /// The waiters registered for direction `dir`.
    pub closed spec fn waiters(&self, dir: Direction) -> Map<RawFd, TaskId> {
        self.interests.waiters(dir)
    }

    /// Every waiting task holds an identifier handed out earlier, and the
    /// current pass lies within the run queue.
    pub closed spec fn wf(&self) -> bool {
        &&& forall|id: TaskId| #[trigger] self.wait_queue@.contains_key(id) ==> id < self.counter
        &&& self.pass_left <= self.run_queue@.len()
    }

    pub fn new() -> (r: Self)
        ensures
            r.wf(),
            r.waiting() == Map::<TaskId, T>::empty(),
            r.pending() == Seq::<TaskId>::empty(),
            r.next_id() == 0,
            r.stepped() == Set::<TaskId>::empty(),
            r.pass_len() == 0,
            r.waiters(Direction::Read) == Map::<RawFd, TaskId>::empty(),
            r.waiters(Direction::Write) == Map::<RawFd, TaskId>::empty(),
    {
        EventLoop {
            interests: InterestRegistry::new(),
            counter: 0,
            wait_queue: BTreeMap::new(),
            run_queue: VecDeque::new(),
            stepped: BTreeSet::new(),
            pass_left: 0,
        }
    }
}

/// Takes the next task to step from the current drain pass: pops the
/// pass's wakeups until one names a live task, dropping the stale ones.
fn drain_current<T>(lp: &mut EventLoop<T>) -> (r: Option<(TaskId, T)>)
    requires
        old(lp).wf(),
    ensures
        final(lp).wf(),
        final(lp).counter == old(lp).counter,
        final(lp).interests == old(lp).interests,
        ({
            let q = old(lp).pending();
            let n = old(lp).pass_len();
            let w = old(lp).waiting();
            let k = next_live(old(lp).pass(), old(lp).live());
            if k < n {
                let id = q[k as int];
                &&& r == Some((id, w[id]))
                &&& final(lp).pending() == q.skip(k as int + 1)
                &&& final(lp).pass_len() == n - k - 1
                &&& final(lp).waiting() == w.remove(id)
                &&& final(lp).stepped() == old(lp).stepped().insert(id)
            } else {
                &&& r is None
                &&& final(lp).pending() == q.skip(n as int)
                &&& final(lp).pass_len() == 0
                &&& final(lp).waiting() == w
                &&& final(lp).stepped() == old(lp).stepped()
            }
        }),
{
    let ghost q0 = lp.run_queue@;
    let ghost n0 = lp.pass_left as int;
    let ghost p0 = q0.take(n0);
    let ghost w = lp.wait_queue@;
    let ghost live = old(lp).live();
    let ghost mut skipped: int = 0;
    assert(p0.skip(0) == p0);
    while lp.pass_left > 0
        invariant
            lp.wf(),
            lp.counter == old(lp).counter,
            lp.interests == old(lp).interests,
            lp.stepped == old(lp).stepped,
            lp.wait_queue@ == w,
            q0 == old(lp).run_queue@,
            n0 == old(lp).pass_left,
            p0 == q0.take(n0),
            n0 <= q0.len(),
            w == old(lp).wait_queue@,
            live == w.dom().difference(lp.stepped@),
            0 <= skipped <= n0,
            lp.pass_left == n0 - skipped,
            lp.run_queue@ == q0.skip(skipped),
            next_live(p0, live) == skipped + next_live(p0.skip(skipped), live),
        decreases lp.pass_left,
    {
        let ghost before = p0.skip(skipped);
        assert(before.drop_first() == p0.skip(skipped + 1));
        let popped = lp.run_queue.pop_front();
        lp.pass_left = lp.pass_left - 1;
        let id = match popped {
            Some(id) => id,
            None => {
                return None;
            },
        };
        proof {
            assert(lp.run_queue@ == q0.skip(skipped + 1));
            assert(id == before[0]);
        }
        if !lp.stepped.contains(&id) {
            match lp.wait_queue.remove(&id) {
                Some(task) => {
                    proof {
                        assert(live.contains(id));
                        assert(next_live(before, live) == 0);
                    }
                    lp.stepped.insert(id);
                    return Some((id, task));
                },
                None => {},
            }
        }
        proof {
            skipped = skipped + 1;
        }
    }
    proof {
        assert(p0.skip(skipped).len() == 0);
    }
    None
}

/// Decides the driver's next move. Pops wakeups of the current drain pass
/// until one names a task that waits and has not been stepped yet in the
/// pass: that task leaves the wait queue and is handed out to be stepped.
/// Other wakeups of the pass are stale and dropped, so no task is stepped
/// twice in one pass. Wakeups queued during the pass, a task waking itself
/// included, are carried over: when the pass is spent and some are
/// pending, the next pass starts on them at once. With nothing pending the
/// loop exits, clearing every registration, when no task waits, and blocks
/// on readiness otherwise.
pub fn run<T>(lp: &mut EventLoop<T>) -> (r: Next<T>)
    requires
        old(lp).wf(),
    ensures
        final(lp).wf(),
        final(lp).next_id() == old(lp).next_id(),
        ({
            let q = old(lp).pending();
            let n = old(lp).pass_len();
            let w = old(lp).waiting();
            let k = next_live(old(lp).pass(), old(lp).live());
            let c = q.skip(n as int);
            let k2 = next_live(c, w.dom());
            if k < n {
                let id = q[k as int];
                &&& r == Next::Step(id, w[id])
                &&& (id as nat) < final(lp).next_id()
                &&& final(lp).pending() == q.skip(k as int + 1)
                &&& final(lp).pass_len() == n - k - 1
                &&& final(lp).waiting() == w.remove(id)
                &&& final(lp).stepped() == old(lp).stepped().insert(id)
                &&& forall|d: Direction| final(lp).waiters(d) == old(lp).waiters(d)
            } else if k2 < c.len() {
                let id = c[k2 as int];
                &&& r == Next::Step(id, w[id])
                &&& (id as nat) < final(lp).next_id()
                &&& final(lp).pending() == c.skip(k2 as int + 1)
                &&& final(lp).pass_len() == c.len() - k2 - 1
                &&& final(lp).waiting() == w.remove(id)
                &&& final(lp).stepped() == Set::<TaskId>::empty().insert(id)
                &&& forall|d: Direction| final(lp).waiters(d) == old(lp).waiters(d)
            } else {
                &&& final(lp).pending() == Seq::<TaskId>::empty()
                &&& final(lp).pass_len() == 0
                &&& final(lp).waiting() == w
                &&& final(lp).stepped() == Set::<TaskId>::empty()
                &&& r == (if w.is_empty() {
                    Next::<T>::Exit
                } else {
                    Next::<T>::Block
                })
            }
        }),
        r is Exit <==> old(lp).waiting().is_empty(),
        r is Exit ==> forall|d: Direction| final(lp).waiters(d) == Map::<RawFd, TaskId>::empty(),
        r is Block ==> forall|d: Direction| final(lp).waiters(d) == old(lp).waiters(d),
        next_live(old(lp).pass(), old(lp).live()) < old(lp).pass_len() ==> drain_pass(
            old(lp).pass(),
            old(lp).live(),
        ) == seq![old(lp).pending()[next_live(old(lp).pass(), old(lp).live()) as int]]
            + drain_pass(final(lp).pass(), final(lp).live()),
        next_live(old(lp).pass(), old(lp).live()) >= old(lp).pass_len() ==> drain_pass(
            old(lp).pass(),
            old(lp).live(),
        ) == Seq::<TaskId>::empty(),
{
    proof {
        let q = old(lp).pending();
        let n = old(lp).pass_len() as int;
        let p = old(lp).pass();
        let k = next_live(p, old(lp).live());
        lemma_next_live_bounds(p, old(lp).live());
        if k < n {
            assert(p[k as int] == q[k as int]);
        }
    }
    match drain_current(lp) {
        Some((id, task)) => {
            proof {
                let q = old(lp).pending();
                let n = old(lp).pass_len() as int;
                let k = next_live(old(lp).pass(), old(lp).live()) as int;
                assert(lp.pass() =~= old(lp).pass().skip(k + 1));
                assert(lp.live() =~= old(lp).live().remove(id));
            }
            return Next::Step(id, task);
        },
        None => {},
    }
    lp.stepped.clear();
    if lp.run_queue.len() > 0 {
        lp.pass_left = lp.run_queue.len();
        proof {
            assert(lp.pass() =~= lp.pending());
            assert(lp.live() =~= lp.wait_queue@.dom());
        }
        let ghost c = lp.run_queue@;
        proof {
            assert(c == old(lp).pending().skip(old(lp).pass_len() as int));
            assert(lp.wait_queue@ == old(lp).waiting());
            lemma_next_live_bounds(c, old(lp).waiting().dom());
        }
        match drain_current(lp) {
            Some((id, task)) => {
                proof {
                    assert(old(lp).waiting().contains_key(id));
                }
                return Next::Step(id, task);
            },
            None => {},
        }
    }
    if lp.wait_queue.is_empty() {
        lp.interests.clear();
        Next::Exit
    } else {
        Next::Block
    }
}

impl<T> EventLoop<T> {
    /// Whether the task-identifier counter is spent: no further task can
    /// be submitted.
    pub fn ids_exhausted(&self) -> (r: bool)
        ensures
            r == (self.next_id() == usize::MAX as nat),
    {
        self.counter == usize::MAX
    }

    /// Hands out a fresh task identifier.
    pub fn next_task(&mut self) -> (r: TaskId)
        requires
            old(self).wf(),
            old(self).next_id() < usize::MAX,
        ensures
            final(self).wf(),
            r as nat == old(self).next_id(),
            !old(self).waiting().contains_key(r),
            final(self).next_id() == old(self).next_id() + 1,
            final(self).stepped() == old(self).stepped(),
            final(self).pass_len() == old(self).pass_len(),
            final(self).waiting() == old(self).waiting(),
            final(self).pending() == old(self).pending(),
            forall|d: Direction| final(self).waiters(d) == old(self).waiters(d),
    {
        let id = self.counter;
        self.counter = self.counter + 1;
        id
    }

    /// Takes back a task that has just been stepped: a suspended task
    /// waits under its identifier, a completed one is dropped.
    pub fn settle(&mut self, id: TaskId, task: T, outcome: Step)
        requires
            old(self).wf(),
            (id as nat) < old(self).next_id(),
        ensures
            final(self).wf(),
            final(self).waiting() == (match outcome {
                Step::Suspended => old(self).waiting().insert(id, task),
                Step::Complete => old(self).waiting(),
            }),
            final(self).pending() == old(self).pending(),
            final(self).next_id() == old(self).next_id(),
            final(self).stepped() == old(self).stepped(),
            final(self).pass_len() == old(self).pass_len(),
            forall|d: Direction| final(self).waiters(d) == old(self).waiters(d),
            old(self).stepped().contains(id) ==> final(self).live() == old(self).live(),
    {
        proof {
            if self.stepped@.contains(id) {
                assert(self.wait_queue@.insert(id, task).dom().difference(self.stepped@)
                    =~= self.wait_queue@.dom().difference(self.stepped@));
            }
        }
        match outcome {
            Step::Suspended => {
                self.wait_queue.insert(id, task);
            },
            Step::Complete => {},
        }
    }

    /// Queues a wakeup for task `id`.
    pub fn wake(&mut self, id: TaskId)
        ensures
            final(self).pending() == old(self).pending().push(id),
            final(self).waiting() == old(self).waiting(),
            final(self).next_id() == old(self).next_id(),
            final(self).stepped() == old(self).stepped(),
            final(self).pass_len() == old(self).pass_len(),
            forall|d: Direction| final(self).waiters(d) == old(self).waiters(d),
            old(self).wf() ==> final(self).wf(),
            old(self).wf() ==> final(self).pass() == old(self).pass(),
    {
        self.run_queue.push_back(id);
    }
}

/// Submits a computation: hands out a fresh identifier and asks for the
/// task's first step. The driver then hands the task back with
/// [`EventLoop::settle`], so a computation that completes on that step
/// never enters the wait queue.
pub fn spawn<T>(lp: &mut EventLoop<T>, task: T) -> (r: Next<T>)
    requires
        old(lp).wf(),
        old(lp).next_id() < usize::MAX,
    ensures
        final(lp).wf(),
        r == Next::Step(old(lp).next_id() as TaskId, task),
        !old(lp).waiting().contains_key(old(lp).next_id() as TaskId),
        final(lp).next_id() == old(lp).next_id() + 1,
        final(lp).stepped() == old(lp).stepped(),
        final(lp).pass_len() == old(lp).pass_len(),
        final(lp).waiting() == old(lp).waiting(),
        final(lp).pending() == old(lp).pending(),
        forall|d: Direction| final(lp).waiters(d) == old(lp).waiters(d),
{
    let id = lp.next_task();
    Next::Step(id, task)
}

impl<T> EventLoop<T> {
    /// Asks that task `id` be woken when `fd` becomes readable; a waiter
    /// already registered on `fd` keeps its place.
    pub fn add_read_interest(&mut self, fd: RawFd, id: TaskId)
        ensures
            final(self).waiters(Direction::Read) == with_interest(
                old(self).waiters(Direction::Read),
                fd,
                id,
            ),
            final(self).waiters(Direction::Write) == old(self).waiters(Direction::Write),
            final(self).waiting() == old(self).waiting(),
            final(self).pending() == old(self).pending(),
            final(self).next_id() == old(self).next_id(),
            final(self).stepped() == old(self).stepped(),
            final(self).pass_len() == old(self).pass_len(),
            old(self).wf() ==> final(self).wf(),
    {
        self.interests.add(Direction::Read, fd, id);
    }

    /// Clears the read waiter on `fd`, if any.
    pub fn remove_read_interest(&mut self, fd: RawFd)
        ensures
            final(self).waiters(Direction::Read) == old(self).waiters(Direction::Read).remove(fd),
            final(self).waiters(Direction::Write) == old(self).waiters(Direction::Write),
            final(self).waiting() == old(self).waiting(),
            final(self).pending() == old(self).pending(),
            final(self).next_id() == old(self).next_id(),
            final(self).stepped() == old(self).stepped(),
            final(self).pass_len() == old(self).pass_len(),
            old(self).wf() ==> final(self).wf(),
    {
        self.interests.remove(Direction::Read, fd);
    }

    /// Asks that task `id` be woken when `fd` becomes writable; a waiter
    /// already registered on `fd` keeps its place.
    pub fn add_write_interest(&mut self, fd: RawFd, id: TaskId)
        ensures
            final(self).waiters(Direction::Write) == with_interest(
                old(self).waiters(Direction::Write),
                fd,
                id,
            ),
            final(self).waiters(Direction::Read) == old(self).waiters(Direction::Read),
            final(self).waiting() == old(self).waiting(),
            final(self).pending() == old(self).pending(),
            final(self).next_id() == old(self).next_id(),
            final(self).stepped() == old(self).stepped(),
            final(self).pass_len() == old(self).pass_len(),
            old(self).wf() ==> final(self).wf(),
    {
        self.interests.add(Direction::Write, fd, id);
    }

    /// Clears the write waiter on `fd`, if any.
    pub fn remove_write_interest(&mut self, fd: RawFd)
        ensures
            final(self).waiters(Direction::Write) == old(self).waiters(Direction::Write).remove(
                fd,
            ),
            final(self).waiters(Direction::Read) == old(self).waiters(Direction::Read),
            final(self).waiting() == old(self).waiting(),
            final(self).pending() == old(self).pending(),
            final(self).next_id() == old(self).next_id(),
            final(self).stepped() == old(self).stepped(),
            final(self).pass_len() == old(self).pass_len(),
            old(self).wf() ==> final(self).wf(),
    {
        self.interests.remove(Direction::Write, fd);
    }

    /// The descriptors with a read waiter, increasing.
    pub fn read_fds(&self) -> (r: Vec<RawFd>)
        ensures
            r@.to_set() == self.waiters(Direction::Read).dom(),
            r@.no_duplicates(),
            forall|i: int, j: int| 0 <= i < j < r@.len() ==> r@[i] < r@[j],
    {
        self.interests.fds(Direction::Read)
    }

    /// The descriptors with a write waiter, increasing.
    pub fn write_fds(&self) -> (r: Vec<RawFd>)
        ensures
            r@.to_set() == self.waiters(Direction::Write).dom(),
            r@.no_duplicates(),
            forall|i: int, j: int| 0 <= i < j < r@.len() ==> r@[i] < r@[j],
    {
        self.interests.fds(Direction::Write)
    }

    /// One more than the highest registered descriptor in either
    /// direction, or 0 when none is registered: the descriptor-count
    /// argument of the multiplexer.
    pub fn select_width(&self) -> (r: i64)
        ensures
            r >= 0,
            forall|d: Direction, fd: RawFd| #[trigger]
                self.waiters(d).contains_key(fd) ==> fd < r,
            r == 0 || exists|d: Direction, fd: RawFd| #[trigger]
                self.waiters(d).contains_key(fd) && fd + 1 == r,
    {
        let reads = self.read_fds();
        let writes = self.write_fds();
        let mut r: i64 = 0;
        let mut i: usize = 0;
        while i < reads.len()
            invariant
                0 <= i <= reads@.len(),
                reads@.to_set() == self.waiters(Direction::Read).dom(),
                r >= 0,
                forall|j: int| 0 <= j < i ==> reads@[j] < r,
                r == 0 || exists|d: Direction, fd: RawFd| #[trigger]
                    self.waiters(d).contains_key(fd) && fd + 1 == r,
            decreases reads@.len() - i,
        {
            assert(reads@.to_set().contains(reads@[i as int]));
            if reads[i] as i64 + 1 > r {
                r = reads[i] as i64 + 1;
            }
            i = i + 1;
        }
        let mut i: usize = 0;
        while i < writes.len()
            invariant
                0 <= i <= writes@.len(),
                reads@.to_set() == self.waiters(Direction::Read).dom(),
                writes@.to_set() == self.waiters(Direction::Write).dom(),
                r >= 0,
                forall|j: int| 0 <= j < reads@.len() ==> reads@[j] < r,
                forall|j: int| 0 <= j < i ==> writes@[j] < r,
                r == 0 || exists|d: Direction, fd: RawFd| #[trigger]
                    self.waiters(d).contains_key(fd) && fd + 1 == r,
            decreases writes@.len() - i,
        {
            assert(writes@.to_set().contains(writes@[i as int]));
            if writes[i] as i64 + 1 > r {
                r = writes[i] as i64 + 1;
            }
            i = i + 1;
        }
        assert forall|d: Direction, fd: RawFd| #[trigger]
            self.waiters(d).contains_key(fd) implies fd < r by {
            match d {
                Direction::Read => {
                    assert(reads@.to_set().contains(fd));
                },
                Direction::Write => {
                    assert(writes@.to_set().contains(fd));
                },
            }
        }
        r
    }

    /// Translates readiness into wakeups: for each descriptor reported
    /// readable, in the order given, the read waiter on it is woken, then
    /// likewise for each descriptor reported writable. Registrations stay
    /// in place; a descriptor without a waiter wakes nobody.
    pub fn dispatch_ready(&mut self, readable: &Vec<RawFd>, writable: &Vec<RawFd>)
        ensures
            final(self).pending() == old(self).pending() + woken_by(
                old(self).waiters(Direction::Read),
                readable@,
            ) + woken_by(old(self).waiters(Direction::Write), writable@),
            final(self).waiting() == old(self).waiting(),
            final(self).next_id() == old(self).next_id(),
            final(self).stepped() == old(self).stepped(),
            final(self).pass_len() == old(self).pass_len(),
            forall|d: Direction| final(self).waiters(d) == old(self).waiters(d),
            old(self).wf() ==> final(self).wf(),
            old(self).wf() ==> final(self).pass() == old(self).pass(),
    {
        let reads = self.interests.woken(Direction::Read, readable);
        let writes = self.interests.woken(Direction::Write, writable);
        let ghost start = self.run_queue@;
        let mut i: usize = 0;
        while i < reads.len()
            invariant
                0 <= i <= reads@.len(),
                self.run_queue@ == start + reads@.take(i as int),
                self.interests == old(self).interests,
                self.wait_queue == old(self).wait_queue,
                self.counter == old(self).counter,
                self.stepped == old(self).stepped,
                self.pass_left == old(self).pass_left,
            decreases reads@.len() - i,
        {
            self.run_queue.push_back(reads[i]);
            assert(reads@.take(i as int + 1) == reads@.take(i as int).push(reads@[i as int]));
            i = i + 1;
        }
        assert(reads@.take(i as int) == reads@);
        let ghost mid = self.run_queue@;
        let mut i: usize = 0;
        while i < writes.len()
            invariant
                0 <= i <= writes@.len(),
                self.run_queue@ == mid + writes@.take(i as int),
                self.interests == old(self).interests,
                self.wait_queue == old(self).wait_queue,
                self.counter == old(self).counter,
                self.stepped == old(self).stepped,
                self.pass_left == old(self).pass_left,
            decreases writes@.len() - i,
        {
            self.run_queue.push_back(writes[i]);
            assert(writes@.take(i as int + 1) == writes@.take(i as int).push(writes@[i as int]));
            i = i + 1;
        }
        assert(writes@.take(i as int) == writes@);
    }
}

impl<T> EventLoop<T> {
    /// Whether task `id` is suspended in the wait queue.
    pub fn is_waiting(&self, id: TaskId) -> (r: bool)
        ensures
            r == self.waiting().contains_key(id),
    {
        self.wait_queue.contains_key(&id)
    }

    /// The number of pending wakeups, stale ones included.
    pub fn pending_len(&self) -> (r: usize)
        ensures
            r == self.pending().len(),
    {
        self.run_queue.len()
    }
}

} // verus!
