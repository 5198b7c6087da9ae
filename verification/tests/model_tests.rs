use scipio::{
    OnceAction, RepeatGenerator, Runtime, TaskQueueHandle, Timer, TimerActionOnce,
    TimerActionRepeat, Waker,
};

#[test]
fn timer_completes_exactly_at_expiry() {
    let mut rt = Runtime::new();
    let t = Timer::new(&mut rt, 100);
    let fired = t.wait(&mut rt);
    assert_eq!(fired, 100);
    assert_eq!(rt.now, 100);
}

#[test]
fn timer_reset_rebases_without_losing_the_waiter() {
    let mut rt = Runtime::new();
    let mut t = Timer::new(&mut rt, 1000);
    // first poll suspends the waiter: a wakeup capability is now held
    let pending = t.poll(&mut rt, Waker { task: None });
    assert!(pending.is_none());
    t.reset(&mut rt, 100);
    let fired = t.wait(&mut rt);
    assert_eq!(fired, 100);
    assert_eq!(rt.now, 100);
}

#[test]
fn timer_reset_before_first_poll() {
    let mut rt = Runtime::new();
    let mut t = Timer::new(&mut rt, 1000);
    t.reset(&mut rt, 50);
    let fired = t.wait(&mut rt);
    assert_eq!(fired, 50);
}

#[test]
fn timer_for_past_instant_fires_on_next_poll() {
    let mut rt = Runtime::new();
    rt.run_for(80);
    let cell = rt.new_cell(0);
    let _ = TimerActionOnce::do_at(
        &mut rt,
        30,
        OnceAction { cell, start: 1, laps: 0, lap_wait: 0, result: 0 },
    );
    rt.drain();
    assert_eq!(rt.cell(cell), 1);
    assert_eq!(rt.now, 80);
}

#[test]
fn queue_not_found_is_reported_synchronously() {
    let mut rt = Runtime::new();
    let cell = rt.new_cell(0);
    let bogus = TaskQueueHandle { index: 7 };
    let r = TimerActionOnce::do_in_into(
        &mut rt,
        10,
        OnceAction { cell, start: 1, laps: 0, lap_wait: 0, result: 0 },
        bogus,
    );
    assert_eq!(r.unwrap_err().index, 7);
    let r2 = TimerActionRepeat::repeat_into(
        &mut rt,
        RepeatGenerator { cell, period: 5, stop_at: None },
        bogus,
    );
    assert!(r2.is_err());
    // nothing was spawned, so nothing ever fires
    rt.run_for(100);
    assert_eq!(rt.cell(cell), 0);
}

#[test]
fn created_queue_is_live() {
    let mut rt = Runtime::new();
    let cell = rt.new_cell(0);
    let tq = rt.create_task_queue();
    let r = TimerActionOnce::do_in_into(
        &mut rt,
        10,
        OnceAction { cell, start: 1, laps: 0, lap_wait: 0, result: 0 },
        tq,
    );
    assert!(r.is_ok());
    rt.run_for(10);
    assert_eq!(rt.cell(cell), 1);
}

#[test]
fn destroy_is_idempotent_any_number_of_times() {
    let mut rt = Runtime::new();
    let cell = rt.new_cell(0);
    let action = TimerActionOnce::do_in(
        &mut rt,
        50,
        OnceAction { cell, start: 1, laps: 0, lap_wait: 0, result: 3 },
    );
    action.destroy(&mut rt);
    action.destroy(&mut rt);
    action.destroy(&mut rt);
    assert!(action.join(&mut rt).is_none());
    assert_eq!(rt.cell(cell), 0);
}

#[test]
fn destroy_after_natural_completion_is_harmless() {
    let mut rt = Runtime::new();
    let cell = rt.new_cell(0);
    let action = TimerActionOnce::do_in(
        &mut rt,
        10,
        OnceAction { cell, start: 1, laps: 0, lap_wait: 0, result: 3 },
    );
    rt.run_for(20);
    action.destroy(&mut rt);
    action.destroy(&mut rt);
    assert_eq!(action.join(&mut rt), Some(3));
    assert_eq!(rt.cell(cell), 1);
}

#[test]
fn rearm_after_fire_leaves_timing_untouched() {
    let mut rt = Runtime::new();
    let cell = rt.new_cell(0);
    let action = TimerActionOnce::do_in(
        &mut rt,
        5,
        OnceAction { cell, start: 7, laps: 0, lap_wait: 0, result: 9 },
    );
    rt.run_for(10);
    assert_eq!(rt.cell(cell), 7);
    // the await resolved long ago: rearming mutates a state nobody watches
    action.rearm_in(&mut rt, 500);
    action.rearm_at(&mut rt, 2);
    let before = rt.now;
    assert_eq!(action.join(&mut rt), Some(9));
    assert_eq!(rt.now, before);
    rt.run_for(1000);
    assert_eq!(rt.cell(cell), 7);
}

#[test]
fn zero_length_waits_complete_within_one_poll() {
    let mut rt = Runtime::new();
    let cell = rt.new_cell(0);
    let action = TimerActionOnce::do_in(
        &mut rt,
        10,
        OnceAction { cell, start: 1, laps: 4, lap_wait: 0, result: 2 },
    );
    rt.run_for(10);
    assert_eq!(rt.cell(cell), 5);
    assert_eq!(action.join(&mut rt), Some(2));
}

#[test]
fn repeat_runs_one_period_per_invocation() {
    let mut rt = Runtime::new();
    let cell = rt.new_cell(0);
    let action = TimerActionRepeat::repeat(
        &mut rt,
        RepeatGenerator { cell, period: 5, stop_at: Some(10) },
    );
    // invoked at 0, 5, ..., 40: nine times by tick 44
    rt.run_until(44);
    assert_eq!(rt.cell(cell), 9);
    // the tenth invocation, at tick 45, answers "stop"
    rt.run_until(45);
    assert_eq!(rt.cell(cell), 10);
    assert_eq!(action.join(&mut rt), Some(()));
    assert_eq!(rt.now, 45);
}

#[test]
fn timers_fire_in_expiry_order() {
    let mut rt = Runtime::new();
    let a = rt.new_cell(0);
    let b = rt.new_cell(0);
    let _ = TimerActionOnce::do_in(
        &mut rt,
        30,
        OnceAction { cell: a, start: 1, laps: 0, lap_wait: 0, result: 0 },
    );
    let _ = TimerActionOnce::do_in(
        &mut rt,
        10,
        OnceAction { cell: b, start: 1, laps: 0, lap_wait: 0, result: 0 },
    );
    rt.run_for(15);
    assert_eq!(rt.cell(b), 1);
    assert_eq!(rt.cell(a), 0);
    rt.run_for(15);
    assert_eq!(rt.cell(a), 1);
}
