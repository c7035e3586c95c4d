use prawnd::task::{Task, TaskStatus};

const DAY: i64 = 86400;

fn mk(deadline: i64, pre: i64, post: i64) -> Task {
    Task::new(
        String::from("title"),
        String::from("desc"),
        deadline,
        pre,
        post,
    )
    .unwrap()
}

#[test]
fn status_windows_around_deadline() {
    // deadline D, pre = 2 days, post = 1 day
    let d: i64 = 1_000_000_000;
    let t = mk(d, 2 * DAY, DAY);
    assert_eq!(t.get_status(d - 3 * DAY), TaskStatus::Waiting);
    assert_eq!(t.get_next_event(d - 3 * DAY), Some(d - 2 * DAY));
    assert_eq!(t.get_status(d - DAY), TaskStatus::PreDeadline);
    assert_eq!(t.get_next_event(d - DAY), Some(d));
    assert_eq!(t.get_status(d + DAY / 2), TaskStatus::PostDeadline);
    assert_eq!(t.get_next_event(d + DAY / 2), Some(d + DAY));
    assert_eq!(t.get_status(d + 2 * DAY), TaskStatus::Late);
    assert_eq!(t.get_next_event(d + 2 * DAY), None);
}

#[test]
fn status_boundaries_belong_to_earlier_state() {
    let d: i64 = 500_000;
    let t = mk(d, 100, 50);
    assert_eq!(t.get_status(d - 100), TaskStatus::Waiting);
    assert_eq!(t.get_status(d - 99), TaskStatus::PreDeadline);
    assert_eq!(t.get_status(d), TaskStatus::PreDeadline);
    assert_eq!(t.get_status(d + 1), TaskStatus::PostDeadline);
    assert_eq!(t.get_status(d + 50), TaskStatus::PostDeadline);
    assert_eq!(t.get_status(d + 51), TaskStatus::Late);
}

#[test]
fn status_is_monotone_in_now() {
    let d: i64 = 200_000;
    let t = mk(d, 300, 200);
    let rank = |s: TaskStatus| match s {
        TaskStatus::Waiting => 0,
        TaskStatus::PreDeadline => 1,
        TaskStatus::PostDeadline => 2,
        TaskStatus::Late => 3,
    };
    let mut prev = rank(t.get_status(d - 1000));
    let mut now = d - 1000;
    while now <= d + 1000 {
        let cur = rank(t.get_status(now));
        assert!(prev <= cur);
        prev = cur;
        now += 7;
    }
}

#[test]
fn replaying_instants_past_each_event_walks_the_states() {
    let d: i64 = 10_000_000;
    let t = mk(d, 2 * DAY, DAY);
    let now0 = d - 3 * DAY;
    assert_eq!(t.get_status(now0), TaskStatus::Waiting);
    let e1 = t.get_next_event(now0).unwrap();
    assert_eq!(t.get_status(e1 + 1), TaskStatus::PreDeadline);
    let e2 = t.get_next_event(e1 + 1).unwrap();
    assert!(e2 > e1);
    assert_eq!(t.get_status(e2 + 1), TaskStatus::PostDeadline);
    let e3 = t.get_next_event(e2 + 1).unwrap();
    assert!(e3 > e2);
    assert_eq!(t.get_status(e3 + 1), TaskStatus::Late);
    assert_eq!(t.get_next_event(e3 + 1), None);
}

#[test]
fn disabled_task_yields_no_event_anywhere() {
    let d: i64 = 42_000;
    let mut t = mk(d, 100, 100);
    t.disable();
    for now in [i64::MIN / 2, d - 200, d - 50, d, d + 50, d + 500] {
        assert_eq!(t.get_next_event(now), None);
    }
    t.enable();
    assert_eq!(t.get_next_event(d - 200), Some(d - 100));
}

#[test]
fn enable_disable_only_flip_the_flag() {
    let mut t = mk(777, 10, 20);
    t.disable();
    assert_eq!(t.deadline, 777);
    assert_eq!(t.pre_period(), 10);
    assert_eq!(t.post_period(), 20);
    assert_eq!(t.title, "title");
    t.enable();
    assert_eq!(t.deadline, 777);
}

#[test]
fn new_rejects_negative_periods_and_unrepresentable_windows() {
    assert!(Task::new(String::new(), String::new(), 0, -1, 0).is_none());
    assert!(Task::new(String::new(), String::new(), 0, 0, -1).is_none());
    assert!(Task::new(String::new(), String::new(), i64::MIN + 5, 10, 0).is_none());
    assert!(Task::new(String::new(), String::new(), i64::MAX - 5, 0, 10).is_none());
    assert!(Task::new(String::new(), String::new(), 0, 100, 100).is_some());
}

#[test]
fn complete_advances_deadline_past_now_by_whole_steps() {
    let mut t = mk(1000, 10, 10);
    // now far ahead: deadline advances by multiples of the step
    t.complete(1000 + 25, 10);
    assert_eq!(t.deadline, 1030);
    // deadline already in the future: unchanged
    let mut t2 = mk(5000, 10, 10);
    t2.complete(100, 10);
    assert_eq!(t2.deadline, 5000);
    // landing exactly on now still advances strictly past it
    let mut t3 = mk(100, 0, 0);
    t3.complete(200, 50);
    assert_eq!(t3.deadline, 250);
}
