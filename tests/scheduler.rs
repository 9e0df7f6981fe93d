use fahrenheit::{run, spawn, EventLoop, Next, Step, TaskId};

fn submit(lp: &mut EventLoop<&'static str>, name: &'static str, first: Step) -> TaskId {
    match spawn(lp, name) {
        Next::Step(id, task) => {
            assert_eq!(task, name);
            lp.settle(id, task, first);
            id
        }
        _ => panic!("spawn must ask for a first step"),
    }
}

fn expect_step(lp: &mut EventLoop<&'static str>) -> (TaskId, &'static str) {
    match run(lp) {
        Next::Step(id, task) => (id, task),
        Next::Block => panic!("expected a step, got block"),
        Next::Exit => panic!("expected a step, got exit"),
    }
}

#[test]
fn identifiers_increase_from_zero() {
    let mut lp: EventLoop<&'static str> = EventLoop::new();
    assert!(!lp.ids_exhausted());
    assert_eq!(submit(&mut lp, "a", Step::Suspended), 0);
    assert_eq!(submit(&mut lp, "b", Step::Complete), 1);
    assert_eq!(submit(&mut lp, "c", Step::Suspended), 2);
    assert!(lp.is_waiting(0));
    assert!(!lp.is_waiting(1));
    assert!(lp.is_waiting(2));
}

#[test]
fn first_registrant_wins() {
    let mut lp: EventLoop<&'static str> = EventLoop::new();
    let a = submit(&mut lp, "a", Step::Suspended);
    let b = submit(&mut lp, "b", Step::Suspended);
    lp.add_read_interest(7, a);
    lp.add_read_interest(7, b);
    lp.dispatch_ready(&vec![7], &vec![]);
    assert_eq!(lp.pending_len(), 1);
    let (id, task) = expect_step(&mut lp);
    assert_eq!(id, a);
    assert_eq!(task, "a");
    lp.settle(id, task, Step::Complete);
    assert!(matches!(run(&mut lp), Next::Block));
    assert!(lp.is_waiting(b));
}

#[test]
fn removed_interest_wakes_nobody() {
    let mut lp: EventLoop<&'static str> = EventLoop::new();
    let a = submit(&mut lp, "a", Step::Suspended);
    lp.add_read_interest(4, a);
    lp.remove_read_interest(4);
    lp.remove_read_interest(4);
    lp.dispatch_ready(&vec![4], &vec![4]);
    assert_eq!(lp.pending_len(), 0);
    assert!(matches!(run(&mut lp), Next::Block));
}

#[test]
fn write_readiness_wakes_write_waiter() {
    let mut lp: EventLoop<&'static str> = EventLoop::new();
    let a = submit(&mut lp, "a", Step::Suspended);
    let b = submit(&mut lp, "b", Step::Suspended);
    lp.add_write_interest(3, a);
    lp.add_read_interest(3, b);
    lp.dispatch_ready(&vec![], &vec![3]);
    let (id, _) = expect_step(&mut lp);
    assert_eq!(id, a);
    assert_eq!(lp.write_fds(), vec![3]);
    lp.remove_write_interest(3);
    assert_eq!(lp.write_fds(), Vec::<i32>::new());
    assert_eq!(lp.read_fds(), vec![3]);
}

#[test]
fn duplicate_wakeup_is_stale_after_completion() {
    let mut lp: EventLoop<&'static str> = EventLoop::new();
    let a = submit(&mut lp, "a", Step::Suspended);
    lp.wake(a);
    lp.wake(a);
    let (id, task) = expect_step(&mut lp);
    assert_eq!(id, a);
    assert!(!lp.is_waiting(a));
    lp.settle(id, task, Step::Complete);
    assert!(matches!(run(&mut lp), Next::Exit));
    assert_eq!(lp.pending_len(), 0);
}

#[test]
fn resuspended_task_is_not_stepped_again_in_the_same_pass() {
    let mut lp: EventLoop<&'static str> = EventLoop::new();
    let a = submit(&mut lp, "a", Step::Suspended);
    lp.wake(a);
    lp.wake(a);
    let (id, task) = expect_step(&mut lp);
    assert_eq!(id, a);
    lp.settle(id, task, Step::Suspended);
    assert!(matches!(run(&mut lp), Next::Block));
    assert_eq!(lp.pending_len(), 0);
    assert!(lp.is_waiting(a));
    lp.wake(a);
    let (again, task) = expect_step(&mut lp);
    assert_eq!(again, a);
    lp.settle(again, task, Step::Complete);
    assert!(matches!(run(&mut lp), Next::Exit));
}

#[test]
fn wakeup_issued_during_a_step_carries_to_the_next_pass() {
    let mut lp: EventLoop<&'static str> = EventLoop::new();
    let a = submit(&mut lp, "a", Step::Suspended);
    let b = submit(&mut lp, "b", Step::Suspended);
    lp.wake(a);
    let (id, task) = expect_step(&mut lp);
    assert_eq!(id, a);
    lp.wake(a);
    lp.wake(b);
    lp.settle(id, task, Step::Suspended);
    let (again, task) = expect_step(&mut lp);
    assert_eq!(again, a);
    lp.settle(again, task, Step::Suspended);
    let (next, task) = expect_step(&mut lp);
    assert_eq!(next, b);
    lp.settle(next, task, Step::Complete);
    assert!(matches!(run(&mut lp), Next::Block));
    assert!(lp.is_waiting(a));
}

#[test]
fn self_waking_task_runs_to_completion_without_blocking() {
    let mut lp: EventLoop<&'static str> = EventLoop::new();
    let a = submit(&mut lp, "yielder", Step::Suspended);
    lp.wake(a);
    let mut steps: usize = 0;
    loop {
        match run(&mut lp) {
            Next::Step(id, task) => {
                steps += 1;
                if steps < 4 {
                    lp.wake(id);
                    lp.settle(id, task, Step::Suspended);
                } else {
                    lp.settle(id, task, Step::Complete);
                }
            }
            Next::Block => panic!("a self-woken task must not wait for readiness"),
            Next::Exit => break,
        }
    }
    assert_eq!(steps, 4);
}

#[test]
fn exit_clears_every_registration() {
    let mut lp: EventLoop<&'static str> = EventLoop::new();
    let a = submit(&mut lp, "a", Step::Suspended);
    lp.add_read_interest(5, a);
    lp.add_write_interest(6, a);
    lp.wake(a);
    let (id, task) = expect_step(&mut lp);
    lp.settle(id, task, Step::Complete);
    assert!(matches!(run(&mut lp), Next::Exit));
    assert_eq!(lp.read_fds(), Vec::<i32>::new());
    assert_eq!(lp.write_fds(), Vec::<i32>::new());
    assert_eq!(lp.select_width(), 0);
    let b = submit(&mut lp, "b", Step::Suspended);
    lp.add_read_interest(5, b);
    lp.dispatch_ready(&vec![5], &vec![]);
    assert_eq!(expect_step(&mut lp).0, b);
}

#[test]
fn block_keeps_registrations() {
    let mut lp: EventLoop<&'static str> = EventLoop::new();
    let a = submit(&mut lp, "a", Step::Suspended);
    lp.add_read_interest(5, a);
    assert!(matches!(run(&mut lp), Next::Block));
    assert_eq!(lp.read_fds(), vec![5]);
}

#[test]
fn fast_path_completion_never_waits() {
    let mut lp: EventLoop<&'static str> = EventLoop::new();
    let a = submit(&mut lp, "noop", Step::Complete);
    assert!(!lp.is_waiting(a));
    assert!(matches!(run(&mut lp), Next::Exit));
}

#[test]
fn terminates_after_exactly_n_resumptions() {
    let n: usize = 5;
    let mut lp: EventLoop<&'static str> = EventLoop::new();
    let a = submit(&mut lp, "reader", Step::Suspended);
    lp.add_read_interest(10, a);
    let mut resumptions: usize = 0;
    loop {
        match run(&mut lp) {
            Next::Step(id, task) => {
                resumptions += 1;
                let outcome = if resumptions == n { Step::Complete } else { Step::Suspended };
                if outcome == Step::Complete {
                    lp.remove_read_interest(10);
                }
                lp.settle(id, task, outcome);
            }
            Next::Block => lp.dispatch_ready(&vec![10], &vec![]),
            Next::Exit => break,
        }
    }
    assert_eq!(resumptions, n);
    assert!(!lp.is_waiting(a));
}

#[test]
fn wakeups_are_stepped_in_fifo_order() {
    let mut lp: EventLoop<&'static str> = EventLoop::new();
    let a = submit(&mut lp, "a", Step::Suspended);
    let b = submit(&mut lp, "b", Step::Suspended);
    let c = submit(&mut lp, "c", Step::Suspended);
    lp.wake(a);
    lp.wake(b);
    lp.wake(c);
    let mut order = Vec::new();
    loop {
        match run(&mut lp) {
            Next::Step(id, task) => {
                order.push(task);
                lp.settle(id, task, Step::Complete);
            }
            Next::Block => panic!("no task should remain"),
            Next::Exit => break,
        }
    }
    assert_eq!(order, vec!["a", "b", "c"]);
}

#[test]
fn readiness_order_follows_the_reported_descriptors() {
    let mut lp: EventLoop<&'static str> = EventLoop::new();
    let a = submit(&mut lp, "a", Step::Suspended);
    let b = submit(&mut lp, "b", Step::Suspended);
    let c = submit(&mut lp, "c", Step::Suspended);
    lp.add_read_interest(9, a);
    lp.add_read_interest(5, b);
    lp.add_write_interest(6, c);
    lp.dispatch_ready(&vec![5, 9, 11], &vec![6]);
    assert_eq!(lp.pending_len(), 3);
    assert_eq!(expect_step(&mut lp).1, "b");
    assert_eq!(expect_step(&mut lp).1, "a");
    assert_eq!(expect_step(&mut lp).1, "c");
}

#[test]
fn stale_wakeup_is_dropped() {
    let mut lp: EventLoop<&'static str> = EventLoop::new();
    lp.wake(42);
    lp.wake(43);
    assert_eq!(lp.pending_len(), 2);
    assert!(matches!(run(&mut lp), Next::Exit));
    assert_eq!(lp.pending_len(), 0);
}

#[test]
fn stale_wakeups_are_skipped_before_a_live_one() {
    let mut lp: EventLoop<&'static str> = EventLoop::new();
    let a = submit(&mut lp, "a", Step::Suspended);
    lp.wake(77);
    lp.wake(a);
    lp.wake(78);
    let (id, _) = expect_step(&mut lp);
    assert_eq!(id, a);
    assert_eq!(lp.pending_len(), 1);
}

#[test]
fn empty_loop_exits_and_waiting_loop_blocks() {
    let mut lp: EventLoop<&'static str> = EventLoop::new();
    assert!(matches!(run(&mut lp), Next::Exit));
    submit(&mut lp, "a", Step::Suspended);
    assert!(matches!(run(&mut lp), Next::Block));
}

#[test]
fn poll_set_is_sorted_and_width_is_max_plus_one() {
    let mut lp: EventLoop<&'static str> = EventLoop::new();
    assert_eq!(lp.select_width(), 0);
    assert_eq!(lp.read_fds(), Vec::<i32>::new());
    let a = submit(&mut lp, "a", Step::Suspended);
    lp.add_read_interest(12, a);
    lp.add_read_interest(3, a);
    lp.add_read_interest(7, a);
    lp.add_write_interest(20, a);
    assert_eq!(lp.read_fds(), vec![3, 7, 12]);
    assert_eq!(lp.write_fds(), vec![20]);
    assert_eq!(lp.select_width(), 21);
    lp.remove_write_interest(20);
    assert_eq!(lp.select_width(), 13);
}

#[test]
fn width_does_not_overflow_at_the_largest_descriptor() {
    let mut lp: EventLoop<&'static str> = EventLoop::new();
    lp.add_read_interest(i32::MAX, 0);
    assert_eq!(lp.select_width(), i32::MAX as i64 + 1);
}
