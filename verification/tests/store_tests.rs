use prawnd::task::{Task, TaskStatus};
use prawnd::tasks::Tasks;

fn mk(title: &str, deadline: i64, pre: i64, post: i64) -> Task {
    Task::new(String::from(title), String::new(), deadline, pre, post).unwrap()
}

#[test]
fn ids_are_assigned_in_insertion_order_from_zero() {
    let mut s = Tasks::new();
    assert_eq!(s.len(), 0);
    for n in 0..5usize {
        let id = s.add_task(mk("t", 1000, 10, 10));
        assert_eq!(id, n);
    }
    assert_eq!(s.len(), 5);
}

#[test]
fn ids_continue_from_the_maximum() {
    let mut s = Tasks::new();
    s.add_task(mk("a", 1000, 10, 10));
    s.add_task(mk("b", 1000, 10, 10));
    let id = s.add_task(mk("c", 1000, 10, 10));
    assert_eq!(id, 2);
    let id2 = s.add_task(mk("d", 1000, 10, 10));
    assert_eq!(id2, 3);
}

#[test]
fn earliest_next_event_none_on_empty_store() {
    let s = Tasks::new();
    assert_eq!(s.earliest_next_event(12345), None);
}

#[test]
fn earliest_next_event_none_when_all_disabled_or_late() {
    let mut s = Tasks::new();
    let a = s.add_task(mk("a", 1000, 10, 10));
    let b = s.add_task(mk("b", 2000, 10, 10));
    // both disabled
    s.disable_task(a);
    s.disable_task(b);
    assert_eq!(s.earliest_next_event(0), None);
    // one re-enabled but late, the other still disabled
    s.enable_task(a);
    assert_eq!(s.earliest_next_event(5000), None);
    // both enabled, both late
    s.enable_task(b);
    assert_eq!(s.earliest_next_event(5000), None);
    // not late any more
    assert_eq!(s.earliest_next_event(0), Some(990));
}

#[test]
fn earliest_next_event_is_the_minimum() {
    let mut s = Tasks::new();
    s.add_task(mk("a", 10_000, 100, 10));
    s.add_task(mk("b", 8_000, 100, 10));
    s.add_task(mk("c", 20_000, 100, 10));
    // all Waiting at now = 0: events are 9900, 7900, 19900
    assert_eq!(s.earliest_next_event(0), Some(7900));
}

#[test]
fn modify_replaces_only_the_addressed_task() {
    let mut s = Tasks::new();
    let a = s.add_task(mk("a", 1000, 10, 10));
    let b = s.add_task(mk("b", 2000, 10, 10));
    s.modify_task(a, mk("a2", 1500, 5, 5));
    let ta = s.get_task(a).unwrap();
    assert_eq!(ta.title, "a2");
    assert_eq!(ta.deadline, 1500);
    let tb = s.get_task(b).unwrap();
    assert_eq!(tb.title, "b");
    // absent id: a silent no-op
    s.modify_task(99, mk("x", 1, 0, 0));
    assert_eq!(s.len(), 2);
    assert!(s.get_task(99).is_none());
}

#[test]
fn enable_disable_complete_are_noops_on_absent_ids() {
    let mut s = Tasks::new();
    let a = s.add_task(mk("a", 1000, 10, 10));
    s.enable_task(7);
    s.disable_task(7);
    s.complete_task(7, 0, 86400);
    assert_eq!(s.len(), 1);
    assert_eq!(s.get_task(a).unwrap().deadline, 1000);
}

#[test]
fn complete_task_advances_the_deadline() {
    let mut s = Tasks::new();
    let a = s.add_task(mk("a", 1000, 10, 10));
    s.complete_task(a, 5000, 86400);
    assert_eq!(s.get_task(a).unwrap().deadline, 1000 + 86400);
}

#[test]
fn digest_excludes_waiting_and_sorts_by_next_event() {
    let now: i64 = 10_000;
    let mut s = Tasks::new();
    // Waiting at `now`: excluded
    let _w = s.add_task(mk("waiting", 50_000, 100, 10));
    // PostDeadline: event at 9_500 + 1_000 = 10_500
    let p_post = s.add_task(mk("post", 9_500, 100, 1_000));
    // PreDeadline: event at 10_200
    let p_pre = s.add_task(mk("pre", 10_200, 500, 10));
    // Late: no event, ordered first
    let p_late = s.add_task(mk("late", 100, 10, 10));
    let d = s.digest(now);
    let ids: Vec<usize> = d.iter().map(|p| p.0).collect();
    assert_eq!(ids, vec![p_late, p_pre, p_post]);
    assert_eq!(d[0].1.get_status(now), TaskStatus::Late);
    assert_eq!(d[1].1.get_status(now), TaskStatus::PreDeadline);
    assert_eq!(d[2].1.get_status(now), TaskStatus::PostDeadline);
}

#[test]
fn digest_includes_disabled_non_waiting_tasks_first() {
    // a disabled task still has a status; it yields no event, so it sorts
    // before every task that yields one
    let now: i64 = 1_000;
    let mut s = Tasks::new();
    let a = s.add_task(mk("disabled-pre", 1_100, 500, 10));
    s.disable_task(a);
    let b = s.add_task(mk("enabled-pre", 1_200, 500, 10));
    let d = s.digest(now);
    let ids: Vec<usize> = d.iter().map(|p| p.0).collect();
    assert_eq!(ids, vec![a, b]);
}

#[test]
fn update_all_matches_the_clock_based_earliest_event() {
    // a far-future deadline keeps the task Waiting for any realistic clock
    let year3k: i64 = 32_503_680_000;
    let mut s = Tasks::new();
    s.add_task(mk("future", year3k, 100, 10));
    assert_eq!(s.update_all(), Some(year3k - 100));
}
