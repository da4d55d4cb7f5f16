use compo::{sleep, Loop, Runtime, Sleep};

#[test]
fn sleep_resolves_once_the_deadline_passes() {
    let s = sleep(10, 100);
    assert!(!s.poll(100));
    assert!(!s.poll(109));
    assert!(s.poll(110));
    assert!(s.poll(200));
}

#[test]
fn sleep_with_zero_duration_is_ready_at_once() {
    let s = sleep(0, 55);
    assert!(s.poll(55));
    assert!(!s.poll(54));
}

#[test]
fn sleep_saturates_at_the_largest_instant() {
    let s = sleep(u64::MAX, 5);
    assert!(!s.poll(u64::MAX - 1));
    assert!(s.poll(u64::MAX));
}

#[test]
fn quit_is_a_permanent_request() {
    let mut lp = Loop::new();
    assert!(!lp.should_quit());
    lp.quit();
    assert!(lp.should_quit());
    lp.quit();
    assert!(lp.should_quit());

    let lp2 = Loop::default();
    assert!(!lp2.should_quit());
}

/// A parent task that three times sleeps and then spawns a child, each child
/// itself sleeping before finishing; the scheduler's count always equals the
/// live tasks, with cancelled ones swept at their next check point and never
/// double-counted.
#[test]
fn looping_parent_spawns_timed_children() {
    let mut rt: Runtime<u64> = Runtime::new();
    let mut now: u64 = 0;

    // work id 0 is the parent; children get ids from 1 up
    rt.spawn(0);
    let mut parent_alive = true;
    let mut parent_sleep = sleep(10, now);
    let mut parent_iterations = 0;
    let mut next_child: u64 = 1;
    let mut children: Vec<(u64, Sleep)> = Vec::new();
    // the second child is cancelled as soon as it is spawned; it stays in
    // the count only until the next cycle sweeps it
    let mut cancelled_child: Option<u64> = None;
    let mut sweeps_left: u32 = 0;

    for _cycle in 0..16 {
        rt.begin_poll();
        while let Some(work) = rt.next_task() {
            if work == 0 {
                if !parent_sleep.poll(now) {
                    rt.task_suspended(work);
                } else if parent_iterations < 3 {
                    parent_iterations += 1;
                    let token = rt.spawn(next_child);
                    if parent_iterations == 2 {
                        token.cancel(&mut rt);
                        cancelled_child = Some(next_child);
                        sweeps_left = 1;
                    } else {
                        children.push((next_child, sleep(7, now)));
                    }
                    next_child += 1;
                    parent_sleep = sleep(10, now);
                    rt.task_suspended(work);
                } else {
                    parent_alive = false;
                    rt.task_finished();
                }
            } else {
                assert_ne!(Some(work), cancelled_child, "a cancelled task was resumed");
                let pos = children.iter().position(|(id, _)| *id == work).unwrap();
                if children[pos].1.poll(now) {
                    children.remove(pos);
                    rt.task_finished();
                } else {
                    rt.task_suspended(work);
                }
            }
        }
        rt.end_poll();

        // the cancelled child survives exactly one cycle boundary unswept
        let zombie = if cancelled_child.is_some() && sweeps_left > 0 { 1 } else { 0 };
        if sweeps_left > 0 {
            sweeps_left -= 1;
        }

        let expected = (if parent_alive { 1 } else { 0 }) + children.len() + zombie;
        assert_eq!(rt.count(), expected, "count drifted at time {}", now);

        now += 5;
    }

    // well past 30 units: the parent has finished its three iterations and
    // every surviving child has completed
    assert!(!parent_alive);
    assert_eq!(rt.count(), 0);
}
