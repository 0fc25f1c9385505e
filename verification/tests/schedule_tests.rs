use goose::goose::{GooseTask, GooseTaskSet};

fn set_with_tasks(tasks: Vec<GooseTask>) -> GooseTaskSet {
    let mut ts = GooseTaskSet::new("TestTasks");
    for t in tasks {
        ts.register_task(t);
    }
    ts
}

#[test]
fn sequence_ordering_buckets() {
    // a(seq=1, w=2), b(seq=2, w=1), c(unsequenced, w=1)
    let mut ts = set_with_tasks(vec![
        GooseTask::named("a").set_weight(2).unwrap().set_sequence(1),
        GooseTask::named("b").set_sequence(2),
        GooseTask::named("c"),
    ]);
    ts.weight_tasks();
    assert_eq!(ts.weighted_tasks, vec![vec![0, 0], vec![1], vec![2]]);
    assert!(ts.weighted_on_start_tasks.is_empty());
    assert!(ts.weighted_on_stop_tasks.is_empty());
}

#[test]
fn weights_normalized_by_gcd() {
    // weights 9 and 3 share a gcd of 3: replicated 3 and 1 times
    let mut ts = set_with_tasks(vec![
        GooseTask::named("big").set_weight(9).unwrap(),
        GooseTask::named("small").set_weight(3).unwrap(),
    ]);
    ts.weight_tasks();
    assert_eq!(ts.weighted_tasks, vec![vec![0, 0, 0, 1]]);
}

#[test]
fn tasks_partitioned_over_three_schedules() {
    let mut ts = set_with_tasks(vec![
        GooseTask::named("login").set_on_start(),
        GooseTask::named("browse"),
        GooseTask::named("logout").set_on_stop(),
    ]);
    ts.weight_tasks();
    assert_eq!(ts.weighted_on_start_tasks, vec![vec![0]]);
    assert_eq!(ts.weighted_tasks, vec![vec![1]]);
    assert_eq!(ts.weighted_on_stop_tasks, vec![vec![2]]);
    // every task stands in exactly one schedule
    let mut seen = vec![0usize; 3];
    for sched in [
        &ts.weighted_on_start_tasks,
        &ts.weighted_tasks,
        &ts.weighted_on_stop_tasks,
    ] {
        for bucket in sched.iter() {
            for &t in bucket.iter() {
                seen[t] += 1;
            }
        }
    }
    assert_eq!(seen, vec![1, 1, 1]);
}

#[test]
fn unsequenced_bucket_is_last() {
    let mut ts = set_with_tasks(vec![
        GooseTask::named("later").set_sequence(7),
        GooseTask::named("loose"),
        GooseTask::named("early").set_sequence(2),
    ]);
    ts.weight_tasks();
    // ascending sequence values 2, 7, then the unsequenced bucket
    assert_eq!(ts.weighted_tasks, vec![vec![2], vec![0], vec![1]]);
}

#[test]
fn builder_is_deterministic() {
    let mut a = set_with_tasks(vec![
        GooseTask::named("x").set_weight(4).unwrap().set_sequence(3),
        GooseTask::named("y").set_weight(6).unwrap().set_sequence(3),
        GooseTask::named("z"),
    ]);
    let mut b = set_with_tasks(vec![
        GooseTask::named("x").set_weight(4).unwrap().set_sequence(3),
        GooseTask::named("y").set_weight(6).unwrap().set_sequence(3),
        GooseTask::named("z"),
    ]);
    a.weight_tasks();
    b.weight_tasks();
    assert_eq!(a.weighted_tasks, b.weighted_tasks);
    assert_eq!(a.weighted_on_start_tasks, b.weighted_on_start_tasks);
    assert_eq!(a.weighted_on_stop_tasks, b.weighted_on_stop_tasks);
    // and repeating the build on the same set changes nothing
    let again = a.weighted_tasks.clone();
    a.weight_tasks();
    assert_eq!(a.weighted_tasks, again);
}

#[test]
fn task_builder_validation() {
    assert!(GooseTask::new().set_weight(0).is_err());
    let t = GooseTask::new().set_weight(3).unwrap();
    assert_eq!(t.weight, 3);
    assert!(GooseTaskSet::new("s").set_weight(0).is_err());
    assert!(GooseTaskSet::new("s").set_wait_time(5, 2).is_err());
    let ts = GooseTaskSet::new("s").set_wait_time(1, 4).unwrap();
    assert_eq!((ts.min_wait, ts.max_wait), (1, 4));
    assert!(GooseTaskSet::new("s").set_host("not a url").is_err());
    let ts = GooseTaskSet::new("s").set_host("http://example.com").unwrap();
    assert_eq!(ts.host.as_deref(), Some("http://example.com"));
}
