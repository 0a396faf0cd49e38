use timer_wheel::TimerWheel;

#[test]
fn one_schedule_one_tick() {
    let mut wt = TimerWheel::<_, 8, 4>::new();
    wt.schedule(0, 1).unwrap();
    let to_run = wt.tick().into_inner();
    assert_eq!(to_run[0], 1);
}

#[test]
fn schedule_lambda() {
    let mut wt = TimerWheel::<_, 8, 4>::new();
    let f = || 2 + 2;
    let _ = wt.schedule(0, f);
    assert_eq!(wt.tick().into_inner()[0](), 4);
}

#[test]
fn on_rtfm() {
    let mut wt = TimerWheel::<_, 8, 4>::new();
    let _ = wt.schedule(0, rtfm::export::run(to_call));

    wt.tick().into_inner()[0];
}

#[test]
fn to_call() {
    assert_eq!(true, true);
}

#[test]
fn tick_multiples() {
    let mut wt = TimerWheel::<_, 8, 4>::new();

    wt.schedule(0, 1).unwrap();
    wt.schedule(3, 2).unwrap();

    {
        let _tick_1 = wt.tick();
    }

    {
        let _tick_2 = wt.tick();
    }

    {
        let _tick_3 = wt.tick();
    }
}

#[test]
fn clean_schedule_tick() {
    let mut wt = TimerWheel::<_, 8, 4>::new();

    wt.schedule(0, 1).unwrap();
    wt.schedule(0, 2).unwrap();

    {
        let _tick = wt.tick();
    }
    {
        wt.clear_node();
    }
}

#[test]
fn tick_pop() {
    let mut wt = TimerWheel::<_, 8, 4>::new();

    wt.schedule(0, 1).unwrap();
    wt.schedule(0, 2).unwrap();

    let mut tick = wt.tick().into_inner();

    while let Some(e) = tick.pop() {
        let _ = e + 1;
    }
}
