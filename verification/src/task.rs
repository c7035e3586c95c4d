use vstd::prelude::*;

verus! {

/// Derived state of a task relative to a reference instant `now`, in
/// strictly increasing time order.
#[derive(Copy, Clone, PartialEq, Eq, Structural, Debug)]
pub enum TaskStatus {
    Waiting,
    PreDeadline,
    PostDeadline,
    Late,
}

/// Gate on scheduling participation.
#[derive(Copy, Clone, PartialEq, Eq, Structural, Debug)]
pub enum EnableStatus {
    Enabled,
    Disabled,
}

/// A single deadline-bearing unit. Instants are UTC seconds since the Unix
/// epoch; the two periods are widths, in seconds, of the attention windows
/// flanking the deadline.
#[derive(PartialEq, Eq, Debug)]
pub struct Task {
    pub title: String,
    pub description: String,
    pub enabled: EnableStatus,
    pub deadline: i64,
    pub pre_period: i64,
    pub post_period: i64,
}

/// Mathematical model of a [`Task`].
#[verifier::ext_equal]
pub ghost struct TaskView {
    pub title: Seq<char>,
    pub description: Seq<char>,
    pub enabled: EnableStatus,
    pub deadline: int,
    pub pre_period: int,
    pub post_period: int,
}

impl View for Task {
    type V = TaskView;

    open spec fn view(&self) -> TaskView {
        TaskView {
            title: self.title@,
            description: self.description@,
            enabled: self.enabled,
            deadline: self.deadline as int,
            pre_period: self.pre_period as int,
            post_period: self.post_period as int,
        }
    }
}

impl TaskView {
    /// Well-formedness: the window widths are non-negative and both window
    /// boundaries fit in the machine representation of an instant.
    pub open spec fn wf(self) -> bool {
        &&& 0 <= self.pre_period
        &&& 0 <= self.post_period
        &&& i64::MIN <= self.deadline - self.pre_period
        &&& self.deadline + self.post_period <= i64::MAX
    }
}

/// Status of a task at instant `now`. Each boundary is inclusive on its
/// upper end, so a task exactly at a boundary belongs to the earlier state.
pub open spec fn spec_status(t: TaskView, now: int) -> TaskStatus {
    if now <= t.deadline - t.pre_period {
        TaskStatus::Waiting
    } else if now <= t.deadline {
        TaskStatus::PreDeadline
    } else if now <= t.deadline + t.post_period {
        TaskStatus::PostDeadline
    } else {
        TaskStatus::Late
    }
}

/// The next instant at which the task's status would change: the upper
/// boundary of its current state. None for disabled tasks and for tasks
/// already Late.
pub open spec fn spec_next_event(t: TaskView, now: int) -> Option<int> {
    if t.enabled == EnableStatus::Disabled {
        None
    } else {
        match spec_status(t, now) {
            TaskStatus::Waiting => Some(t.deadline - t.pre_period),
            TaskStatus::PreDeadline => Some(t.deadline),
            TaskStatus::PostDeadline => Some(t.deadline + t.post_period),
            TaskStatus::Late => None,
        }
    }
}

/// The instant of an `Option<i64>`, as a mathematical optional instant.
pub open spec fn opt_instant(r: Option<i64>) -> Option<int> {
    match r {
        Some(x) => Some(x as int),
        None => None,
    }
}

/// Position of a status along `Waiting < PreDeadline < PostDeadline < Late`.
pub open spec fn status_rank(s: TaskStatus) -> int {
    match s {
        TaskStatus::Waiting => 0,
        TaskStatus::PreDeadline => 1,
        TaskStatus::PostDeadline => 2,
        TaskStatus::Late => 3,
    }
}

/// The smallest deadline of the form `deadline + k * step` (k >= 0) that
/// lies strictly in the future of `now`.
pub open spec fn spec_advance_deadline(deadline: int, now: int, step: int) -> int
    decreases now - deadline + step when step >= 1
{
    if deadline > now {
        deadline
    } else {
        spec_advance_deadline(deadline + step, now, step)
    }
}

impl Clone for Task {
    /// A clone carries the same field values.
    fn clone(&self) -> (r: Task)
        ensures
            r == *self,
    {
        Task {
            title: self.title.clone(),
            description: self.description.clone(),
            enabled: self.enabled,
            deadline: self.deadline,
            pre_period: self.pre_period,
            post_period: self.post_period,
        }
    }
}

impl Task {
    /// Builds a task, validating that the window widths are non-negative
    /// and that both window boundaries are representable instants; the task
    /// starts enabled.
    pub fn new(
        title: String,
        description: String,
        deadline: i64,
        pre_period: i64,
        post_period: i64,
    ) -> (r: Option<Task>)
        ensures
            r matches Some(t) ==> {
                &&& t@ == (TaskView {
                    title: title@,
                    description: description@,
                    enabled: EnableStatus::Enabled,
                    deadline: deadline as int,
                    pre_period: pre_period as int,
                    post_period: post_period as int,
                })
                &&& t@.wf()
            },
            r is None <==> {
                ||| pre_period < 0
                ||| post_period < 0
                ||| deadline - pre_period < i64::MIN
                ||| deadline + post_period > i64::MAX
            },
    {
        if pre_period < 0 || post_period < 0 {
            return None;
        }
        let lo: i128 = (deadline as i128) - (pre_period as i128);
        let hi: i128 = (deadline as i128) + (post_period as i128);
        if lo < i64::MIN as i128 || hi > i64::MAX as i128 {
            return None;
        }
        Some(Task { title, description, enabled: EnableStatus::Enabled, deadline, pre_period, post_period })
    }

    /// Where `now` falls relative to the deadline windows.
    pub fn get_status(&self, now: i64) -> (s: TaskStatus)
        requires
            self@.wf(),
        ensures
            s == spec_status(self@, now as int),
    {
        if now <= self.deadline - self.pre_period {
            TaskStatus::Waiting
        } else if now <= self.deadline {
            TaskStatus::PreDeadline
        } else if now <= self.deadline + self.post_period {
            TaskStatus::PostDeadline
        } else {
            TaskStatus::Late
        }
    }

    /// The upper boundary of the current state: when the state machine
    /// moves next. None when the task is disabled or already Late.
    pub fn get_next_event(&self, now: i64) -> (r: Option<i64>)
        requires
            self@.wf(),
        ensures
            opt_instant(r) == spec_next_event(self@, now as int),
    {
        match self.enabled {
            EnableStatus::Enabled => {
                match self.get_status(now) {
                    TaskStatus::Waiting => Some(self.deadline - self.pre_period),
                    TaskStatus::PreDeadline => Some(self.deadline),
                    TaskStatus::PostDeadline => Some(self.deadline + self.post_period),
                    TaskStatus::Late => None,
                }
            },
            EnableStatus::Disabled => None,
        }
    }

    /// Flips the enable flag on; every other field is unchanged.
    pub fn enable(&mut self)
        ensures
            final(self)@ == (TaskView { enabled: EnableStatus::Enabled, ..old(self)@ }),
    {
        self.enabled = EnableStatus::Enabled;
    }

    /// Flips the enable flag off; every other field is unchanged.
    pub fn disable(&mut self)
        ensures
            final(self)@ == (TaskView { enabled: EnableStatus::Disabled, ..old(self)@ }),
    {
        self.enabled = EnableStatus::Disabled;
    }

    /// Width of the attention window before the deadline, in seconds.
    pub fn pre_period(&self) -> (r: i64)
        ensures
            r as int == self@.pre_period,
    {
        self.pre_period
    }

    /// Width of the attention window after the deadline, in seconds.
    pub fn post_period(&self) -> (r: i64)
        ensures
            r as int == self@.post_period,
    {
        self.post_period
    }

    /// Acknowledges the task: advances the deadline by whole multiples of
    /// the recurrence step (a caller-chosen policy) until it is strictly in
    /// the future of `now`. A deadline already in the future is kept.
    pub fn complete(&mut self, now: i64, step: i64)
        requires
            old(self)@.wf(),
            step >= 1,
            now + step + old(self)@.post_period <= i64::MAX,
        ensures
            final(self)@ == (TaskView {
                deadline: spec_advance_deadline(old(self)@.deadline, now as int, step as int),
                ..old(self)@
            }),
            final(self)@.wf(),
    {
        let ghost d0: int = self.deadline as int;
        while self.deadline <= now
            invariant
                old(self)@.wf(),
                self@ == (TaskView { deadline: self@.deadline, ..old(self)@ }),
                d0 == old(self)@.deadline,
                d0 <= self@.deadline,
                self@.deadline == d0 || self@.deadline <= now + step,
                step >= 1,
                now + step + old(self)@.post_period <= i64::MAX,
                spec_advance_deadline(self@.deadline, now as int, step as int)
                    == spec_advance_deadline(d0, now as int, step as int),
            decreases now - self.deadline + step,
        {
            self.deadline = self.deadline + step;
        }
    }
}

/// Law: for a fixed task, the status at instant `now` is a pure function of
/// `now` and is non-decreasing along
/// `Waiting < PreDeadline < PostDeadline < Late`.
pub proof fn lemma_status_monotonic(t: TaskView, n1: int, n2: int)
    requires
        t.wf(),
        n1 <= n2,
    ensures
        status_rank(spec_status(t, n1)) <= status_rank(spec_status(t, n2)),
{
}

/// Law: a disabled task never yields a next event, whatever `now` is.
pub proof fn lemma_disabled_no_event(t: TaskView, now: int)
    requires
        t.enabled == EnableStatus::Disabled,
    ensures
        spec_next_event(t, now) == None::<int>,
{
}

/// Law: for an enabled task, the next event never lies before `now`, and
/// every instant strictly past a state's upper boundary is in a strictly
/// later state; so replaying instants strictly past each returned event
/// visits exactly `PreDeadline, PostDeadline, Late` and then stops.
/// (Replaying a returned boundary instant itself keeps the earlier state,
/// since boundaries are inclusive on their upper end; strict progress needs
/// an instant strictly past it.)
pub proof fn lemma_next_event_walk(t: TaskView, now: int)
    requires
        t.wf(),
        t.enabled == EnableStatus::Enabled,
    ensures
        spec_next_event(t, now) matches Some(e) ==> now <= e,
        spec_status(t, now) == TaskStatus::Waiting ==> spec_next_event(t, now)
            == Some(t.deadline - t.pre_period),
        forall|n: int|
            t.deadline - t.pre_period < n <= t.deadline ==> spec_status(t, n)
                == TaskStatus::PreDeadline && spec_next_event(t, n) == Some(t.deadline),
        forall|n: int|
            t.deadline < n <= t.deadline + t.post_period ==> spec_status(t, n)
                == TaskStatus::PostDeadline && spec_next_event(t, n)
                == Some(t.deadline + t.post_period),
        forall|n: int|
            t.deadline + t.post_period < n ==> spec_status(t, n) == TaskStatus::Late
                && spec_next_event(t, n) == None::<int>,
{
}

} // verus!

