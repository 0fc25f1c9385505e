use goose::allocate::allocate_users;
use goose::client::GooseClient;
use goose::driver::{driver_step, DriverAction, DriverPhase};
use goose::goose::{GooseClientCommand, GooseClientMode, GooseTask, GooseTaskSet};
use goose::GooseConfiguration;

fn config() -> GooseConfiguration {
    GooseConfiguration {
        host: String::new(),
        print_stats: true,
        status_codes: true,
        no_metrics: false,
        no_task_metrics: false,
    }
}

fn one_user(ts: &GooseTaskSet) -> GooseClient {
    let sets = vec![clone_set(ts)];
    let mut users = allocate_users(&sets, 1, &None, &config());
    users.pop().unwrap()
}

fn clone_set(ts: &GooseTaskSet) -> GooseTaskSet {
    let mut c = GooseTaskSet::new(&ts.name);
    for t in ts.tasks.iter() {
        let mut nt = GooseTask::named(&t.name)
            .set_weight(t.weight)
            .unwrap()
            .set_sequence(t.sequence);
        if t.on_start {
            nt = nt.set_on_start();
        }
        if t.on_stop {
            nt = nt.set_on_stop();
        }
        c.register_task(nt);
    }
    c.weight = ts.weight;
    c.min_wait = ts.min_wait;
    c.max_wait = ts.max_wait;
    c.weight_tasks();
    c
}

/// Run driver steps until `n` tasks have been invoked or the driver is
/// done; returns the invoked task indices in order.
fn run_driver(
    ts: &GooseTaskSet,
    client: &mut GooseClient,
    n: usize,
    exit_after: Option<usize>,
) -> (Vec<usize>, Vec<usize>, Vec<usize>) {
    let mut phase = DriverPhase::OnStart { bucket: 0, pos: 0 };
    let mut started = Vec::new();
    let mut steady = Vec::new();
    let mut stopped = Vec::new();
    let mut invoked = 0usize;
    for _ in 0..10000 {
        let cmds = match exit_after {
            Some(limit) if invoked >= limit => vec![GooseClientCommand::EXIT],
            _ => Vec::new(),
        };
        let (next, action) = driver_step(ts, client, phase, &cmds);
        phase = next;
        match action {
            DriverAction::InvokeOnStart(t) => {
                started.push(t);
                invoked += 1;
            }
            DriverAction::InvokeSteady(t) => {
                steady.push(t);
                invoked += 1;
            }
            DriverAction::InvokeOnStop(t) => {
                stopped.push(t);
                invoked += 1;
            }
            DriverAction::Sleep => {}
            DriverAction::Continue => {}
            DriverAction::Done => break,
        }
        if invoked >= n && exit_after.is_none() {
            break;
        }
    }
    (started, steady, stopped)
}

#[test]
fn sequence_walk_wraps_in_order() {
    // a(seq=1, w=2), b(seq=2), c(unsequenced): one pass is a, a, b, c
    let mut ts = GooseTaskSet::new("S");
    ts.register_task(GooseTask::named("a").set_weight(2).unwrap().set_sequence(1));
    ts.register_task(GooseTask::named("b").set_sequence(2));
    ts.register_task(GooseTask::named("c"));
    ts.weight_tasks();
    let mut user = one_user(&ts);
    assert_eq!(user.weighted_tasks, vec![vec![0, 0], vec![1], vec![2]]);
    assert_eq!((user.weighted_bucket, user.weighted_bucket_position), (0, 0));
    let (started, steady, _) = run_driver(&ts, &mut user, 8, None);
    assert!(started.is_empty());
    // the first bucket holds a twice, so its shuffle changes nothing
    assert_eq!(steady, vec![0, 0, 1, 2, 0, 0, 1, 2]);
}

#[test]
fn on_start_runs_before_steady() {
    let mut ts = GooseTaskSet::new("S");
    ts.register_task(GooseTask::named("login").set_sequence(1).set_on_start());
    ts.register_task(GooseTask::named("browse"));
    ts.weight_tasks();
    let mut user = one_user(&ts);
    let (started, steady, stopped) = run_driver(&ts, &mut user, 5, None);
    assert_eq!(started, vec![0]);
    assert_eq!(steady, vec![1, 1, 1, 1]);
    assert!(stopped.is_empty());
    assert_eq!(user.mode, GooseClientMode::RUNNING);
}

#[test]
fn exit_runs_on_stop_and_finishes() {
    let mut ts = GooseTaskSet::new("S");
    ts.register_task(GooseTask::named("browse"));
    ts.register_task(GooseTask::named("logout").set_on_stop());
    ts.weight_tasks();
    let mut user = one_user(&ts);
    // exit after three steady invocations
    let (_, steady, stopped) = run_driver(&ts, &mut user, usize::MAX, Some(3));
    assert_eq!(steady, vec![0, 0, 0]);
    // after EXIT no further steady tasks run, but on_stop still does
    assert_eq!(stopped, vec![1]);
    assert_eq!(user.mode, GooseClientMode::EXITING);
}

#[test]
fn exit_during_sleep_leaves_promptly() {
    let mut ts = GooseTaskSet::new("S").set_wait_time(0, 10).unwrap();
    ts.register_task(GooseTask::named("browse"));
    ts.weight_tasks();
    let mut user = one_user(&ts);
    let mut phase = DriverPhase::OnStart { bucket: 0, pos: 0 };
    // walk to the first steady invocation
    let mut invoked = false;
    for _ in 0..100 {
        let (next, action) = driver_step(&ts, &mut user, phase, &Vec::new());
        phase = next;
        if matches!(action, DriverAction::InvokeSteady(_)) {
            invoked = true;
            break;
        }
    }
    assert!(invoked);
    assert!(matches!(phase, DriverPhase::Sleeping { .. }));
    // EXIT arrives mid-sleep: the driver leaves the sleep on the very
    // next step without sleeping again
    let (next, action) = driver_step(&ts, &mut user, phase, &vec![GooseClientCommand::EXIT]);
    assert_eq!(next, DriverPhase::OnStop { bucket: 0, pos: 0 });
    assert_eq!(action, DriverAction::Continue);
    assert_eq!(user.mode, GooseClientMode::EXITING);
}

#[test]
fn empty_steady_schedule_goes_straight_to_exit() {
    let mut ts = GooseTaskSet::new("S");
    ts.register_task(GooseTask::named("login").set_on_start());
    ts.weight_tasks();
    let mut user = one_user(&ts);
    let (started, steady, stopped) = run_driver(&ts, &mut user, usize::MAX, None);
    assert_eq!(started, vec![0]);
    assert!(steady.is_empty());
    assert!(stopped.is_empty());
    assert_eq!(user.mode, GooseClientMode::EXITING);
}

#[test]
fn cursor_returns_to_start_each_pass() {
    // two singleton buckets: shuffles are the identity, and after any
    // whole number of passes the cursor reads bucket 0, position 0
    let mut ts = GooseTaskSet::new("S");
    ts.register_task(GooseTask::named("a").set_sequence(1));
    ts.register_task(GooseTask::named("b").set_sequence(2));
    ts.weight_tasks();
    let mut user = one_user(&ts);
    for k in 1..4usize {
        let total = 2 * k;
        let mut fresh = one_user(&ts);
        let (_, steady, _) = run_driver(&ts, &mut fresh, total, None);
        assert_eq!(steady.len(), total);
        // every pass is a, b in order; the next read would be a again
        for (i, &t) in steady.iter().enumerate() {
            assert_eq!(t, i % 2);
        }
    }
    let (_, steady, _) = run_driver(&ts, &mut user, 6, None);
    assert_eq!(steady, vec![0, 1, 0, 1, 0, 1]);
}

#[test]
fn sleep_counts_quanta() {
    let mut ts = GooseTaskSet::new("S").set_wait_time(2, 2).unwrap();
    ts.register_task(GooseTask::named("browse"));
    ts.weight_tasks();
    let mut user = one_user(&ts);
    let mut phase = DriverPhase::OnStart { bucket: 0, pos: 0 };
    loop {
        let (next, action) = driver_step(&ts, &mut user, phase, &Vec::new());
        phase = next;
        if matches!(action, DriverAction::InvokeSteady(_)) {
            break;
        }
    }
    // min_wait == max_wait == 2: exactly two sleep quanta follow
    let mut sleeps = 0;
    loop {
        let (next, action) = driver_step(&ts, &mut user, phase, &Vec::new());
        phase = next;
        match action {
            DriverAction::Sleep => sleeps += 1,
            DriverAction::Continue => break,
            other => panic!("unexpected action {:?}", other),
        }
    }
    assert_eq!(sleeps, 2);
    assert_eq!(phase, DriverPhase::Steady);
}

#[test]
fn request_name_follows_task_name() {
    let mut ts = GooseTaskSet::new("S");
    ts.register_task(GooseTask::named("shop"));
    ts.weight_tasks();
    let mut user = one_user(&ts);
    let _ = run_driver(&ts, &mut user, 1, None);
    assert_eq!(user.request_name, "shop");
}
