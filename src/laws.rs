use crate::event_loop::{drain_pass, next_live, EventLoop};
use crate::registry::{woken_by, with_interest, RawFd, TaskId};
use vstd::prelude::*;

verus! {

/// `next_live` points at the first wakeup whose task waits, past only
/// stale ones.
pub proof fn lemma_next_live_bounds(q: Seq<TaskId>, w: Set<TaskId>)
    ensures
        next_live(q, w) <= q.len(),
        next_live(q, w) < q.len() ==> w.contains(q[next_live(q, w) as int]),
        forall|j: int| 0 <= j < next_live(q, w) ==> !w.contains(#[trigger] q[j]),
    decreases q.len(),
{
    if q.len() > 0 && !w.contains(q[0]) {
        lemma_next_live_bounds(q.drop_first(), w);
        assert forall|j: int| 0 <= j < next_live(q, w) implies !w.contains(#[trigger] q[j]) by {
            if j > 0 {
                assert(q[j] == q.drop_first()[j - 1]);
            }
        }
    }
}

/// A second registration on a descriptor leaves the first waiter in
/// place, and readiness of that descriptor wakes the first waiter alone.
pub proof fn lemma_first_registrant_wins(
    m: Map<RawFd, TaskId>,
    fd: RawFd,
    first: TaskId,
    second: TaskId,
)
    requires
        !m.contains_key(fd),
    ensures
        with_interest(with_interest(m, fd, first), fd, second) == m.insert(fd, first),
        woken_by(with_interest(with_interest(m, fd, first), fd, second), seq![fd]) == seq![first],
{
    let r = with_interest(with_interest(m, fd, first), fd, second);
    assert(seq![fd].drop_last() == Seq::<RawFd>::empty());
    assert(woken_by(r, Seq::<RawFd>::empty()) == Seq::<TaskId>::empty());
    assert(Seq::<TaskId>::empty().push(first) == seq![first]);
}

/// Readiness wakes a registered descriptor's waiter and nobody else.
pub proof fn lemma_ready_wakes_waiter(m: Map<RawFd, TaskId>, fd: RawFd)
    ensures
        woken_by(m, seq![fd]) == (if m.contains_key(fd) {
            seq![m[fd]]
        } else {
            Seq::<TaskId>::empty()
        }),
{
    assert(seq![fd].drop_last() == Seq::<RawFd>::empty());
    assert(woken_by(m, Seq::<RawFd>::empty()) == Seq::<TaskId>::empty());
    assert(Seq::<TaskId>::empty().push(m[fd]) == seq![m[fd]]);
}

/// A task outside the live set, because it no longer waits or was already
/// stepped in this drain pass, is not handed out: every wakeup for it is
/// stale.
pub proof fn lemma_removed_task_not_stepped(q: Seq<TaskId>, w: Set<TaskId>, id: TaskId)
    requires
        !w.contains(id),
    ensures
        next_live(q, w) < q.len() ==> q[next_live(q, w) as int] != id,
{
    lemma_next_live_bounds(q, w);
}

/// In a drain pass no task is stepped twice, however many wakeups name it
/// and whatever its steps report, and only tasks live at the start of the
/// pass are stepped.
pub proof fn lemma_no_double_step(q: Seq<TaskId>, w: Set<TaskId>)
    ensures
        drain_pass(q, w).no_duplicates(),
        forall|i: int|
            0 <= i < drain_pass(q, w).len() ==> w.contains(
                #[trigger] drain_pass(q, w)[i],
            ),
    decreases q.len(),
{
    lemma_next_live_bounds(q, w);
    let k = next_live(q, w);
    if k < q.len() {
        let id = q[k as int];
        let rest = drain_pass(q.skip(k as int + 1), w.remove(id));
        lemma_no_double_step(q.skip(k as int + 1), w.remove(id));
        let d = drain_pass(q, w);
        assert(d == seq![id] + rest);
        assert forall|i: int| 0 <= i < d.len() implies w.contains(#[trigger] d[i]) by {
            if i > 0 {
                assert(d[i] == rest[i - 1]);
            }
        }
        assert forall|i: int, j: int| 0 <= i < d.len() && 0 <= j < d.len() && i != j implies d[i]
            != d[j] by {
            if i > 0 {
                assert(d[i] == rest[i - 1]);
                assert(w.remove(id).contains(rest[i - 1]));
            }
            if j > 0 {
                assert(d[j] == rest[j - 1]);
                assert(w.remove(id).contains(rest[j - 1]));
            }
        }
    }
}

/// Wakeups for distinct waiting tasks are stepped in the order in which
/// they were queued.
pub proof fn lemma_fifo_drain(q: Seq<TaskId>, w: Set<TaskId>)
    requires
        q.no_duplicates(),
        forall|i: int| 0 <= i < q.len() ==> w.contains(#[trigger] q[i]),
    ensures
        drain_pass(q, w) == q,
    decreases q.len(),
{
    if q.len() > 0 {
        assert(next_live(q, w) == 0);
        let tail = q.skip(1);
        assert forall|i: int| 0 <= i < tail.len() implies w.remove(q[0]).contains(
            #[trigger] tail[i],
        ) by {
            assert(tail[i] == q[i + 1]);
        }
        assert(tail.no_duplicates()) by {
            assert forall|i: int, j: int|
                0 <= i < tail.len() && 0 <= j < tail.len() && i != j implies tail[i] != tail[j] by {
                assert(tail[i] == q[i + 1] && tail[j] == q[j + 1]);
            }
        }
        lemma_fifo_drain(tail, w.remove(q[0]));
        assert(seq![q[0]] + tail == q);
    }
}

/// Wakeups whose tasks no longer wait are all dropped: none is handed out
/// for stepping.
pub proof fn lemma_stale_wakeups_dropped(q: Seq<TaskId>, w: Set<TaskId>)
    requires
        forall|i: int| 0 <= i < q.len() ==> !w.contains(#[trigger] q[i]),
    ensures
        next_live(q, w) == q.len(),
        drain_pass(q, w) == Seq::<TaskId>::empty(),
{
    lemma_next_live_bounds(q, w);
}

/// A task handed out in the current drain pass stays out of it: a step
/// that suspends it again puts it back in the wait queue, yet no wakeup
/// hands it out before the pass ends.
pub proof fn lemma_stepped_task_stays_out<T>(lp: EventLoop<T>, q: Seq<TaskId>, id: TaskId)
    requires
        lp.stepped().contains(id),
    ensures
        !lp.live().contains(id),
        next_live(q, lp.live()) < q.len() ==> q[next_live(q, lp.live()) as int] != id,
{
    lemma_removed_task_not_stepped(q, lp.live(), id);
}

/// No wakeup is lost in a drain pass: every task that is live at the start
/// of the pass and named by one of its wakeups is stepped in the pass.
pub proof fn lemma_drain_steps_every_live_wakeup(q: Seq<TaskId>, w: Set<TaskId>)
    ensures
        forall|i: int|
            0 <= i < q.len() && w.contains(#[trigger] q[i]) ==> drain_pass(q, w).contains(q[i]),
    decreases q.len(),
{
    lemma_next_live_bounds(q, w);
    let k = next_live(q, w) as int;
    if k < q.len() {
        let id = q[k];
        let tail = q.skip(k + 1);
        let rest = drain_pass(tail, w.remove(id));
        lemma_drain_steps_every_live_wakeup(tail, w.remove(id));
        let d = drain_pass(q, w);
        assert(d == seq![id] + rest);
        assert(d[0] == id);
        assert forall|i: int| 0 <= i < q.len() && w.contains(#[trigger] q[i]) implies d.contains(
            q[i],
        ) by {
            if q[i] == id {
                assert(d[0] == q[i]);
            } else {
                assert(i > k);
                assert(tail[i - k - 1] == q[i]);
                assert(w.remove(id).contains(tail[i - k - 1]));
                let j = choose|j: int| 0 <= j < rest.len() && rest[j] == q[i];
                assert(d[j + 1] == q[i]);
            }
        }
    }
}

} // verus!
