use scipio::{OnceAction, RepeatGenerator, Runtime, Timer, TimerActionOnce, TimerActionRepeat};

fn flag_action(cell: usize) -> OnceAction {
    OnceAction { cell, start: 1, laps: 0, lap_wait: 0, result: 0 }
}

fn value_action(cell: usize, result: u64) -> OnceAction {
    OnceAction { cell, start: 0, laps: 0, lap_wait: 0, result }
}

#[test]
fn basic_timer_works() {
    let mut rt = Runtime::new();
    let start = rt.now;
    let t = Timer::new(&mut rt, 100);
    t.wait(&mut rt);
    assert!(rt.now - start >= 100);
}

#[test]
fn basic_timer_action_instant_works() {
    let mut rt = Runtime::new();
    let exec = rt.new_cell(0);
    let when = rt.now + 50;
    let _ = TimerActionOnce::do_at(&mut rt, when, flag_action(exec));
    let t = Timer::new(&mut rt, 100);
    t.wait(&mut rt);
    assert_eq!(rt.cell(exec), 1);
}

#[test]
fn basic_timer_action_instant_past_works() {
    let mut rt = Runtime::new();
    let exec = rt.new_cell(0);
    rt.run_for(60);
    let when = rt.now - 50;
    let _ = TimerActionOnce::do_at(&mut rt, when, flag_action(exec));
    rt.drain();
    assert_eq!(rt.cell(exec), 1);
}

#[test]
fn basic_timer_action_works() {
    let mut rt = Runtime::new();
    let exec = rt.new_cell(0);
    let _ = TimerActionOnce::do_in(&mut rt, 50, flag_action(exec));
    let t = Timer::new(&mut rt, 100);
    t.wait(&mut rt);
    assert_eq!(rt.cell(exec), 1);
}

#[test]
fn basic_timer_rearm_pending_timer_for_the_past_ok() {
    let mut rt = Runtime::new();
    let start = rt.now;
    let cell = rt.new_cell(0);
    // the action itself sleeps 50 more ticks before producing 1
    let action = TimerActionOnce::do_in(
        &mut rt,
        50,
        OnceAction { cell, start: 0, laps: 1, lap_wait: 50, result: 1 },
    );
    let t = Timer::new(&mut rt, 60);
    t.wait(&mut rt);
    let past = rt.now.saturating_sub(1000);
    action.rearm_at(&mut rt, past);
    rt.run_for(200);
    let ret = action.join(&mut rt);
    assert_eq!(ret.unwrap(), 1);
    assert!(rt.now - start >= 100);
}

#[test]
fn basic_timer_rearm_executed_action_ok() {
    let mut rt = Runtime::new();
    let cell = rt.new_cell(0);
    let action = TimerActionOnce::do_in(&mut rt, 1, value_action(cell, 1));
    let t = Timer::new(&mut rt, 10);
    t.wait(&mut rt);
    let far = rt.now + 100_000;
    action.rearm_at(&mut rt, far);
    let before = rt.now;
    let ret = action.join(&mut rt);
    assert_eq!(ret.unwrap(), 1);
    assert!(rt.now - before <= 10);
}

#[test]
fn basic_timer_rearm_future_timer_ok() {
    let mut rt = Runtime::new();
    let start = rt.now;
    let cell = rt.new_cell(0);
    let action = TimerActionOnce::do_in(&mut rt, 10, value_action(cell, 1));
    action.rearm_in(&mut rt, 100);
    rt.run_for(100);
    let ret = action.join(&mut rt);
    assert_eq!(ret.unwrap(), 1);
    assert!(rt.now - start >= 100);
}

#[test]
fn basic_timer_action_return_ok() {
    let mut rt = Runtime::new();
    let start = rt.now;
    let cell = rt.new_cell(0);
    let action = TimerActionOnce::do_in(&mut rt, 50, value_action(cell, 1));
    rt.run_for(50);
    let ret = action.join(&mut rt);
    assert_eq!(ret.unwrap(), 1);
    assert!(rt.now - start >= 50);
}

#[test]
fn basic_timer_action_join_reflects_cancel() {
    let mut rt = Runtime::new();
    let start = rt.now;
    let cell = rt.new_cell(0);
    let action = TimerActionOnce::do_in(&mut rt, 50, value_action(cell, 1));
    action.destroy(&mut rt);
    let ret = action.join(&mut rt);
    assert!(ret.is_none());
    assert!(rt.now - start < 50);
}

#[test]
fn basic_timer_action_cancel_works() {
    let mut rt = Runtime::new();
    let exec = rt.new_cell(0);
    let action = TimerActionOnce::do_in(&mut rt, 50, flag_action(exec));
    // force this to go into the task queue before cancelling
    rt.drain();
    action.cancel(&mut rt);
    let t = Timer::new(&mut rt, 100);
    t.wait(&mut rt);
    assert_eq!(rt.cell(exec), 0);
}

#[test]
fn basic_timer_action_destroy_works() {
    let mut rt = Runtime::new();
    let exec = rt.new_cell(0);
    let action = TimerActionOnce::do_in(&mut rt, 50, flag_action(exec));
    action.destroy(&mut rt);
    let t = Timer::new(&mut rt, 100);
    t.wait(&mut rt);
    assert_eq!(rt.cell(exec), 0);
    // joining doesn't lead to infinite blocking or anything, and completes
    action.join(&mut rt);
}

#[test]
fn basic_timer_action_destroy_cancel_initiated_action() {
    let mut rt = Runtime::new();
    let exec = rt.new_cell(0);
    // starts by setting the cell to 1, then ten more timed waits, each
    // followed by an increment: full completion would leave 11
    let action = TimerActionOnce::do_in(
        &mut rt,
        10,
        OnceAction { cell: exec, start: 1, laps: 10, lap_wait: 10, result: 0 },
    );
    let t = Timer::new(&mut rt, 50);
    t.wait(&mut rt);
    action.destroy(&mut rt);
    action.join(&mut rt);
    // it did start, but should not have finished
    assert!(rt.cell(exec) > 1);
    assert_ne!(rt.cell(exec), 11);
}

#[test]
fn basic_timer_action_cancel_fails_if_fired() {
    let mut rt = Runtime::new();
    let exec = rt.new_cell(0);
    let action = TimerActionOnce::do_in(&mut rt, 1, flag_action(exec));
    // force this to go into the task queue before cancelling
    let t = Timer::new(&mut rt, 10);
    t.wait(&mut rt);
    action.cancel(&mut rt);
    let t2 = Timer::new(&mut rt, 90);
    t2.wait(&mut rt);
    // too late, fired
    assert_eq!(rt.cell(exec), 1);
}

#[test]
fn basic_timer_action_repeat_works() {
    let mut rt = Runtime::new();
    let exec = rt.new_cell(0);
    let repeat = TimerActionRepeat::repeat(
        &mut rt,
        RepeatGenerator { cell: exec, period: 5, stop_at: Some(10) },
    );
    let t = Timer::new(&mut rt, 100);
    t.wait(&mut rt);
    let value = rt.cell(exec);
    assert!(value == 10);
    let v = repeat.join(&mut rt);
    assert!(v.is_some());
}

#[test]
fn basic_timer_action_repeat_cancellation_works() {
    let mut rt = Runtime::new();
    let exec = rt.new_cell(0);
    let action = TimerActionRepeat::repeat(
        &mut rt,
        RepeatGenerator { cell: exec, period: 10, stop_at: None },
    );
    let t = Timer::new(&mut rt, 50);
    t.wait(&mut rt);
    action.cancel(&mut rt);
    let old_value = rt.cell(exec);
    let t2 = Timer::new(&mut rt, 50);
    t2.wait(&mut rt);
    assert_eq!(rt.cell(exec), old_value);
}

#[test]
fn basic_timer_action_repeat_destruction_works() {
    let mut rt = Runtime::new();
    let exec = rt.new_cell(0);
    let action = TimerActionRepeat::repeat(
        &mut rt,
        RepeatGenerator { cell: exec, period: 10, stop_at: None },
    );
    action.destroy(&mut rt);
    let v = action.join(&mut rt);
    assert!(v.is_none());
}
