use mini_executor::runtime::{new_executor_and_spawner, Step};
use mini_executor::future::sleep;
use mini_executor::waker::{waker_ref, ArcWake};

#[test]
fn new_pair_starts_empty() {
    let (ex, _spawner) = new_executor_and_spawner();
    assert_eq!(ex.tasks.len(), 0);
    assert_eq!(ex.queue.len(), 0);
    assert_eq!(ex.sleeps.len(), 0);
    assert_eq!(ex.now, 0);
    assert!(ex.spawner_live);
}

#[test]
fn immediate_computation_runs_to_completion() {
    let (mut ex, spawner) = new_executor_and_spawner();
    spawner.spawn(&mut ex, vec![Step::Work(7)]);
    spawner.close(&mut ex);
    ex.run();
    assert_eq!(ex.queue.len(), 0);
    assert!(ex.tasks[0].done);
    assert_eq!(ex.tasks[0].refs, 0);
    assert!(ex.tasks[0].slot.is_none());
    assert_eq!(ex.log, vec![7]);
    assert!(!ex.spawner_live);
}

#[test]
fn tasks_are_serviced_in_spawn_order() {
    let (mut ex, spawner) = new_executor_and_spawner();
    spawner.spawn(&mut ex, vec![Step::Work(1)]);
    spawner.spawn(&mut ex, vec![Step::Work(2)]);
    spawner.spawn(&mut ex, vec![Step::Work(3)]);
    spawner.close(&mut ex);
    ex.run();
    assert_eq!(ex.log, vec![1, 2, 3]);
}

#[test]
fn stress_many_immediate_computations_each_run_once() {
    let (mut ex, spawner) = new_executor_and_spawner();
    for i in 0..10_000u64 {
        spawner.spawn(&mut ex, vec![Step::Work(i)]);
    }
    spawner.close(&mut ex);
    ex.run();
    assert_eq!(ex.queue.len(), 0);
    assert_eq!(ex.log.len(), 10_000);
    for i in 0..10_000usize {
        assert!(ex.tasks[i].done);
        assert_eq!(ex.tasks[i].polls, 1);
        assert_eq!(ex.tasks[i].refs, 0);
        assert_eq!(ex.log[i], i as u64);
    }
}

#[test]
fn sleep_is_pending_until_fired_and_then_ready_forever() {
    let (mut ex, _spawner) = new_executor_and_spawner();
    let sid = sleep(&mut ex, 3);
    assert_eq!(ex.sleeps[sid].deadline, 3);
    assert!(!ex.sleeps[sid].is_ready);
    let (ready, displaced) = ex.sleeps[sid].poll(waker_ref(0));
    assert!(!ready);
    assert!(displaced.is_none());
    ex.advance(3);
    assert_eq!(ex.now, 3);
    ex.fire(sid);
    assert!(ex.sleeps[sid].is_ready);
    let (ready, displaced) = ex.sleeps[sid].poll(waker_ref(0));
    assert!(ready);
    assert!(displaced.is_none());
    let (ready_again, _) = ex.sleeps[sid].poll(waker_ref(0));
    assert!(ready_again);
}

#[test]
fn firing_before_any_poll_leaves_nothing_to_wake() {
    let (mut ex, _spawner) = new_executor_and_spawner();
    let sid = sleep(&mut ex, 0);
    assert!(!ex.sleeps[sid].is_ready);
    ex.fire(sid);
    assert!(ex.sleeps[sid].is_ready);
    assert_eq!(ex.queue.len(), 0);
}

#[test]
fn suspended_task_resumes_after_its_timer_fires() {
    let (mut ex, spawner) = new_executor_and_spawner();
    spawner.spawn(&mut ex, vec![Step::Work(65), Step::Pause(1), Step::Work(66)]);
    spawner.close(&mut ex);
    ex.run();
    assert_eq!(ex.log, vec![65]);
    assert!(!ex.tasks[0].done);
    assert!(ex.tasks[0].slot.is_some());
    assert_eq!(ex.tasks[0].refs, 1);
    assert!(ex.sleeps[0].waker.is_some());
    ex.advance(1);
    ex.fire(0);
    assert_eq!(ex.queue.len(), 1);
    ex.run();
    assert_eq!(ex.log, vec![65, 66]);
    assert!(ex.tasks[0].done);
    assert_eq!(ex.tasks[0].refs, 0);
    assert!(!ex.spawner_live);
}

#[test]
fn each_wake_delivers_the_task_exactly_once() {
    let (mut ex, spawner) = new_executor_and_spawner();
    spawner.spawn(&mut ex, vec![Step::Pause(10)]);
    spawner.close(&mut ex);
    ex.run();
    assert_eq!(ex.queue.len(), 0);
    assert_eq!(ex.tasks[0].polls, 1);
    let borrowed = waker_ref(0);
    borrowed.wake_by_ref(&mut ex);
    assert_eq!(ex.queue.len(), 1);
    assert_eq!(ex.tasks[0].refs, 2);
    let owned = borrowed.clone(&mut ex);
    owned.wake(&mut ex);
    assert_eq!(ex.queue.len(), 2);
    assert_eq!(ex.tasks[0].refs, 3);
    ex.run();
    assert_eq!(ex.queue.len(), 0);
    assert_eq!(ex.tasks[0].polls, 3);
    assert!(!ex.tasks[0].done);
}

#[test]
fn clone_and_drop_balance_out_without_leak_or_double_free() {
    let (mut ex, spawner) = new_executor_and_spawner();
    spawner.spawn(&mut ex, vec![Step::Pause(99)]);
    spawner.close(&mut ex);
    ex.run();
    assert_eq!(ex.tasks[0].refs, 1);
    let original = waker_ref(0).clone(&mut ex);
    assert_eq!(ex.tasks[0].refs, 2);
    let c1 = original.clone(&mut ex);
    let c2 = original.clone(&mut ex);
    let c3 = original.clone(&mut ex);
    assert_eq!(ex.tasks[0].refs, 5);
    c1.drop(&mut ex);
    c2.drop(&mut ex);
    c3.drop(&mut ex);
    original.drop(&mut ex);
    assert_eq!(ex.tasks[0].refs, 1);
    assert!(ex.tasks[0].slot.is_some());
    assert!(!ex.tasks[0].done);
    ex.advance(99);
    ex.fire(0);
    ex.run();
    assert!(ex.tasks[0].done);
    assert_eq!(ex.tasks[0].refs, 0);
    assert!(ex.tasks[0].slot.is_none());
}

#[test]
fn waking_a_completed_task_is_skipped_safely() {
    let (mut ex, spawner) = new_executor_and_spawner();
    spawner.spawn(&mut ex, vec![Step::Work(4)]);
    let handle = waker_ref(0).clone(&mut ex);
    spawner.close(&mut ex);
    ex.run();
    assert!(ex.tasks[0].done);
    assert_eq!(ex.tasks[0].polls, 1);
    assert_eq!(ex.tasks[0].refs, 1);
    handle.wake(&mut ex);
    assert_eq!(ex.queue.len(), 1);
    ex.run();
    assert_eq!(ex.tasks[0].polls, 1);
    assert_eq!(ex.tasks[0].refs, 0);
}

#[test]
fn repolling_overwrites_the_stored_waker_without_leaking() {
    let (mut ex, spawner) = new_executor_and_spawner();
    spawner.spawn(&mut ex, vec![Step::Pause(5)]);
    spawner.close(&mut ex);
    ex.run();
    assert_eq!(ex.tasks[0].refs, 1);
    waker_ref(0).wake_by_ref(&mut ex);
    assert_eq!(ex.tasks[0].refs, 2);
    ex.run();
    assert_eq!(ex.tasks[0].refs, 1);
    assert_eq!(ex.tasks[0].polls, 2);
    assert!(ex.sleeps[0].waker.is_some());
}

#[test]
fn the_clock_accumulates_and_deadlines_saturate() {
    let (mut ex, _spawner) = new_executor_and_spawner();
    ex.advance(2);
    ex.advance(3);
    assert_eq!(ex.now, 5);
    let sid = sleep(&mut ex, u64::MAX);
    assert_eq!(ex.sleeps[sid].deadline, u64::MAX);
}

#[test]
fn pause_of_zero_duration_still_suspends_once() {
    let (mut ex, spawner) = new_executor_and_spawner();
    spawner.spawn(&mut ex, vec![Step::Pause(0), Step::Work(5)]);
    spawner.close(&mut ex);
    ex.run();
    assert_eq!(ex.log.len(), 0);
    assert!(!ex.tasks[0].done);
    ex.fire(0);
    ex.run();
    assert_eq!(ex.log, vec![5]);
    assert!(ex.tasks[0].done);
}
