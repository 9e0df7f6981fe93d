use std::collections::BTreeMap;
use vstd::std_specs::btree::increasing_seq;
use vstd::laws_cmp::obeys_cmp;
use vstd::std_specs::cmp::OrdSpec;
use vstd::std_specs::iter::IteratorSpec;
use vstd::prelude::*;

verus! {

/// Identifier of a scheduled task.
pub type TaskId = usize;

/// An operating-system file descriptor.
pub type RawFd = i32;

/// The readiness direction a waiter is interested in.
#[derive(Clone, Copy, Debug, PartialEq, Eq, Structural)]
pub enum Direction {
    Read,
    Write,
}

/// Waiters after `id` asks to be woken on `fd`: the first registrant keeps
/// the slot, a later one is ignored.
pub open spec fn with_interest(m: Map<RawFd, TaskId>, fd: RawFd, id: TaskId) -> Map<
    RawFd,
    TaskId,
> {
    if m.contains_key(fd) {
        m
    } else {
        m.insert(fd, id)
    }
}

/// The tasks woken, in order, when the descriptors of `ready` are reported
/// ready to waiters `m`: the waiter of each registered descriptor, once per
/// occurrence in `ready`; unregistered descriptors wake nobody.
pub open spec fn woken_by(m: Map<RawFd, TaskId>, ready: Seq<RawFd>) -> Seq<TaskId>
    decreases ready.len(),
{
    if ready.len() == 0 {
        Seq::empty()
    } else {
        let earlier = woken_by(m, ready.drop_last());
        if m.contains_key(ready.last()) {
            earlier.push(m[ready.last()])
        } else {
            earlier
        }
    }
}

/// Per-direction mapping from descriptor to the one task waiting on it.
pub struct InterestRegistry {
    read: BTreeMap<RawFd, TaskId>,
    write: BTreeMap<RawFd, TaskId>,
}

impl InterestRegistry {
    /// The waiters registered for direction `dir`.
    pub closed spec fn waiters(&self, dir: Direction) -> Map<RawFd, TaskId> {
        match dir {
            Direction::Read => self.read@,
            Direction::Write => self.write@,
        }
    }

    pub fn new() -> (r: Self)
        ensures
            r.waiters(Direction::Read) == Map::<RawFd, TaskId>::empty(),
            r.waiters(Direction::Write) == Map::<RawFd, TaskId>::empty(),
    {
        InterestRegistry { read: BTreeMap::new(), write: BTreeMap::new() }
    }

    /// Drops every registration, in both directions.
    pub fn clear(&mut self)
        ensures
            forall|d: Direction| final(self).waiters(d) == Map::<RawFd, TaskId>::empty(),
    {
        self.read.clear();
        self.write.clear();
    }

    /// Registers `id` as the waiter on `fd` in direction `dir`, unless some
    /// task already waits there.
    pub fn add(&mut self, dir: Direction, fd: RawFd, id: TaskId)
        ensures
            final(self).waiters(dir) == with_interest(old(self).waiters(dir), fd, id),
            forall|d: Direction| d != dir ==> final(self).waiters(d) == old(self).waiters(d),
    {
        match dir {
            Direction::Read => {
                if !self.read.contains_key(&fd) {
                    self.read.insert(fd, id);
                }
            },
            Direction::Write => {
                if !self.write.contains_key(&fd) {
                    self.write.insert(fd, id);
                }
            },
        }
    }

    /// Clears the waiter on `fd` in direction `dir`, if any.
    pub fn remove(&mut self, dir: Direction, fd: RawFd)
        ensures
            final(self).waiters(dir) == old(self).waiters(dir).remove(fd),
            forall|d: Direction| d != dir ==> final(self).waiters(d) == old(self).waiters(d),
    {
        match dir {
            Direction::Read => {
                self.read.remove(&fd);
            },
            Direction::Write => {
                self.write.remove(&fd);
            },
        }
    }

    /// The task waiting on `fd` in direction `dir`.
    pub fn waiter(&self, dir: Direction, fd: RawFd) -> (r: Option<TaskId>)
        ensures
            r == (if self.waiters(dir).contains_key(fd) {
                Some(self.waiters(dir)[fd])
            } else {
                None::<TaskId>
            }),
    {
        match dir {
            Direction::Read => match self.read.get(&fd) {
                Some(id) => Some(*id),
                None => None,
            },
            Direction::Write => match self.write.get(&fd) {
                Some(id) => Some(*id),
                None => None,
            },
        }
    }
}

impl InterestRegistry {
    /// Every descriptor with a waiter in direction `dir`, each once, in
    /// increasing order.
    pub fn fds(&self, dir: Direction) -> (r: Vec<RawFd>)
        ensures
            r@.to_set() == self.waiters(dir).dom(),
            r@.no_duplicates(),
            forall|i: int, j: int| 0 <= i < j < r@.len() ==> r@[i] < r@[j],
    {
        let m = match dir {
            Direction::Read => &self.read,
            Direction::Write => &self.write,
        };
        let keys = m.keys();
        let ghost ks = keys.remaining();
        proof {
            assert(obeys_cmp::<&RawFd>());
            assert(increasing_seq(ks));
        }
        let mut r: Vec<RawFd> = Vec::new();
        for fd in it: keys
            invariant
                it.seq() == ks,
                r@ == ks.take(it.index() as int).map_values(|k: &RawFd| *k),
        {
            r.push(*fd);
        }
        assert(r@ == ks.map_values(|k: &RawFd| *k));
        assert(ks.unref() == r@);
        assert(ks.unref().to_set() == m@.dom());
        assert forall|i: int, j: int| 0 <= i < j < r@.len() implies r@[i] < r@[j] by {
            assert(<&RawFd as OrdSpec>::cmp_spec(&ks[i], &ks[j]) is Less);
        }
        r
    }

    /// The tasks to wake, in order, for the descriptors `ready` reported
    /// ready in direction `dir`.
    pub fn woken(&self, dir: Direction, ready: &Vec<RawFd>) -> (r: Vec<TaskId>)
        ensures
            r@ == woken_by(self.waiters(dir), ready@),
    {
        let mut r: Vec<TaskId> = Vec::new();
        let mut i: usize = 0;
        while i < ready.len()
            invariant
                i <= ready@.len(),
                r@ == woken_by(self.waiters(dir), ready@.take(i as int)),
            decreases ready@.len() - i,
        {
            assert(ready@.take(i as int + 1).drop_last() == ready@.take(i as int));
            match self.waiter(dir, ready[i]) {
                Some(id) => r.push(id),
                None => {},
            }
            i = i + 1;
        }
        assert(ready@.take(i as int) == ready@);
        r
    }
}

} // verus!
