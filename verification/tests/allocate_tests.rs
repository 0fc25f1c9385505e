use goose::allocate::{allocate_users, launch_order};
use goose::goose::{GooseClientMode, GooseTask, GooseTaskSet, GooseTest};
use goose::GooseConfiguration;

fn config() -> GooseConfiguration {
    GooseConfiguration {
        host: String::new(),
        print_stats: true,
        status_codes: true,
        no_metrics: false,
        no_task_metrics: false,
    }
}

fn weighted_set(name: &str, weight: usize) -> GooseTaskSet {
    let mut ts = GooseTaskSet::new(name).set_weight(weight).unwrap();
    ts.register_task(GooseTask::named("t"));
    ts.weight_tasks();
    ts
}

#[test]
fn weighted_allocation_three_to_one() {
    // Foo (w=3) and Bar (w=1), 8 users: 6 of Foo, 2 of Bar
    let sets = vec![weighted_set("Foo", 3), weighted_set("Bar", 1)];
    let users = allocate_users(&sets, 8, &None, &config());
    assert_eq!(users.len(), 8);
    let foo = users.iter().filter(|u| u.task_sets_index == 0).count();
    let bar = users.iter().filter(|u| u.task_sets_index == 1).count();
    assert_eq!((foo, bar), (6, 2));
    for (i, u) in users.iter().enumerate() {
        assert_eq!(u.weighted_clients_index, i);
        assert_eq!(u.mode, GooseClientMode::HATCHING);
    }
}

#[test]
fn allocation_residue_spread() {
    // weights 1,1,1 with 4 users: counts are 1 or 2 and sum to 4
    let sets = vec![
        weighted_set("A", 1),
        weighted_set("B", 1),
        weighted_set("C", 1),
    ];
    let users = allocate_users(&sets, 4, &None, &config());
    assert_eq!(users.len(), 4);
    let mut counts = vec![0usize; 3];
    for u in users.iter() {
        counts[u.task_sets_index] += 1;
    }
    assert_eq!(counts.iter().sum::<usize>(), 4);
    for &c in counts.iter() {
        assert!(c == 1 || c == 2);
    }
}

#[test]
fn launch_order_is_permutation() {
    let mut order = launch_order(8);
    assert_eq!(order.len(), 8);
    order.sort();
    assert_eq!(order, (0..8).collect::<Vec<usize>>());
}

#[test]
fn engine_allocates_and_orders() {
    let mut test = GooseTest::new();
    test.register_taskset(weighted_set("Foo", 3));
    test.register_taskset(weighted_set("Bar", 1));
    test.allocate_weighted_clients(8, &config());
    assert_eq!(test.weighted_clients.len(), 8);
    let foo = test
        .weighted_clients
        .iter()
        .filter(|u| u.task_sets_index == 0)
        .count();
    assert_eq!(foo, 6);
    let mut order = test.weighted_clients_order.clone();
    order.sort();
    assert_eq!(order, (0..8).collect::<Vec<usize>>());
}

#[test]
fn users_inherit_set_configuration() {
    let mut ts = GooseTaskSet::new("S")
        .set_wait_time(2, 5)
        .unwrap()
        .set_host("http://stage")
        .unwrap();
    ts.register_task(GooseTask::named("t"));
    ts.weight_tasks();
    let users = allocate_users(&vec![ts], 2, &Some("http://dev".to_owned()), &config());
    for u in users.iter() {
        assert_eq!((u.min_wait, u.max_wait), (2, 5));
        assert_eq!(u.task_set_host.as_deref(), Some("http://stage"));
        assert_eq!(u.default_host.as_deref(), Some("http://dev"));
        assert_eq!(u.weighted_tasks, vec![vec![0]]);
    }
}
