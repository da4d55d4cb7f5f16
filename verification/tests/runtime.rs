use compo::{rerender, Cancellable, Runtime};

/// Drives one full cycle, resolving every handed-out task with `step`:
/// `true` keeps it suspended, `false` reports it finished. Returns the works
/// that were driven, in order.
fn drive_cycle(rt: &mut Runtime<u64>, step: impl Fn(u64) -> bool) -> Vec<u64> {
    let mut driven = Vec::new();
    rt.begin_poll();
    while let Some(work) = rt.next_task() {
        driven.push(work);
        if step(work) {
            rt.task_suspended(work);
        } else {
            rt.task_finished();
        }
    }
    rt.end_poll();
    driven
}

#[test]
fn count_equals_spawns_before_first_cycle() {
    let mut rt: Runtime<u64> = Runtime::new();
    assert_eq!(rt.count(), 0);
    rt.spawn(10);
    assert_eq!(rt.count(), 1);
    rt.spawn(11);
    rt.spawn(12);
    assert_eq!(rt.count(), 3);
}

#[test]
fn mid_cycle_spawn_runs_next_cycle() {
    let mut rt: Runtime<u64> = Runtime::new();
    rt.spawn(1);

    rt.begin_poll();
    let first = rt.next_task();
    assert_eq!(first, Some(1));
    // the task spawns a child during its own resumption step
    rt.spawn(2);
    rt.task_finished();
    // the child is not driven within this cycle
    assert_eq!(rt.next_task(), None);
    rt.end_poll();
    assert_eq!(rt.count(), 1);

    // it is driven on the next cycle
    let driven = drive_cycle(&mut rt, |_| false);
    assert_eq!(driven, vec![2]);
    assert_eq!(rt.count(), 0);
}

#[test]
fn cancelled_task_is_dropped_without_resuming() {
    let mut rt: Runtime<u64> = Runtime::new();
    let t1 = rt.spawn(1);
    let t2 = rt.spawn(2);
    t1.cancel(&mut rt);
    assert!(t1.is_cancelled(&rt));
    assert!(!t2.is_cancelled(&rt));

    // task 1 is never handed out again; it silently leaves the pending set
    let driven = drive_cycle(&mut rt, |_| true);
    assert_eq!(driven, vec![2]);
    assert_eq!(rt.count(), 1);

    let driven = drive_cycle(&mut rt, |_| true);
    assert_eq!(driven, vec![2]);
}

#[test]
fn cancel_is_idempotent_and_safe_after_completion() {
    let mut rt: Runtime<u64> = Runtime::new();
    let t = rt.spawn(1);
    let driven = drive_cycle(&mut rt, |_| false);
    assert_eq!(driven, vec![1]);
    assert_eq!(rt.count(), 0);

    // the task already finished; cancelling is harmless and sticks
    t.cancel(&mut rt);
    t.cancel(&mut rt);
    assert!(t.is_cancelled(&rt));
}

#[test]
fn cancel_during_step_drops_at_the_report() {
    let mut rt: Runtime<u64> = Runtime::new();
    let t = rt.spawn(1);

    rt.begin_poll();
    assert_eq!(rt.next_task(), Some(1));
    // the task cancels its own token during its step; even though it
    // reports "still suspended", it is not retained
    t.cancel(&mut rt);
    rt.task_suspended(1);
    assert_eq!(rt.next_task(), None);
    rt.end_poll();
    assert_eq!(rt.count(), 0);
}

#[test]
fn inert_token_is_a_no_op() {
    let mut rt: Runtime<u64> = Runtime::new();
    rt.spawn(1);
    let inert = Cancellable::default();
    inert.cancel(&mut rt);
    assert!(!inert.is_cancelled(&rt));
    // the real task is unaffected
    let driven = drive_cycle(&mut rt, |_| true);
    assert_eq!(driven, vec![1]);
}

#[test]
fn tasks_run_in_insertion_order() {
    let mut rt: Runtime<u64> = Runtime::new();
    rt.spawn(3);
    rt.spawn(1);
    rt.spawn(2);
    let driven = drive_cycle(&mut rt, |_| true);
    assert_eq!(driven, vec![3, 1, 2]);
    // retained tasks keep their order on the next cycle
    let driven = drive_cycle(&mut rt, |_| true);
    assert_eq!(driven, vec![3, 1, 2]);
}

#[test]
fn rerender_cancels_the_previous_render() {
    let mut rt: Runtime<u64> = Runtime::new();
    let first = rt.spawn(1);
    let second = rerender(&mut rt, &first, 2);
    assert!(first.is_cancelled(&rt));
    assert!(!second.is_cancelled(&rt));
    assert_eq!(rt.count(), 2);

    // the stale render is dropped without being resumed; only the fresh one
    // runs
    let driven = drive_cycle(&mut rt, |_| true);
    assert_eq!(driven, vec![2]);
    assert_eq!(rt.count(), 1);
}

#[test]
fn staged_tasks_are_counted_while_mid_cycle() {
    let mut rt: Runtime<u64> = Runtime::new();
    rt.spawn(1);
    rt.begin_poll();
    assert_eq!(rt.next_task(), Some(1));
    rt.spawn(2);
    rt.spawn(3);
    rt.task_suspended(1);
    // one retained task plus two staged ones
    assert_eq!(rt.count(), 3);
    assert_eq!(rt.next_task(), None);
    rt.end_poll();
    assert_eq!(rt.count(), 3);
}
