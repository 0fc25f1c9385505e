use goose::metrics::{task_metrics_enabled, GooseMetric, GooseRawTask};
use goose::GooseConfiguration;

#[test]
fn raw_task_records_invocation() {
    let mut raw = GooseRawTask::new(1500, 2, 4, "login", 7);
    assert_eq!(raw.elapsed, 1500);
    assert_eq!(raw.taskset_index, 2);
    assert_eq!(raw.task_index, 4);
    assert_eq!(raw.name, "login");
    assert_eq!(raw.user_index, 7);
    raw.set_time(42, true);
    assert_eq!(raw.time, 42);
    assert!(raw.success);
    let metric = GooseMetric::Task(raw);
    match metric {
        GooseMetric::Task(t) => assert_eq!(t.time, 42),
        GooseMetric::Request(_) => panic!("expected a task metric"),
    }
}

#[test]
fn metrics_switches() {
    let mut cfg = GooseConfiguration {
        host: String::new(),
        print_stats: true,
        status_codes: false,
        no_metrics: false,
        no_task_metrics: false,
    };
    assert!(task_metrics_enabled(&cfg));
    cfg.no_task_metrics = true;
    assert!(!task_metrics_enabled(&cfg));
    cfg.no_task_metrics = false;
    cfg.no_metrics = true;
    assert!(!task_metrics_enabled(&cfg));
}
