use vstd::prelude::*;
use vstd::multiset::Multiset;

use crate::task::{
    spec_next_event, spec_status, opt_instant, spec_advance_deadline, EnableStatus, Task,
    TaskStatus, TaskView,
};

verus! {

/// The store: a mapping from integer id to task, kept as a vector of
/// (id, task) entries in insertion order.
pub struct Tasks {
    items: Vec<(usize, Task)>,
}

impl View for Tasks {
    type V = Seq<(usize, Task)>;

    closed spec fn view(&self) -> Seq<(usize, Task)> {
        self.items@
    }
}

/// Store well-formedness: ids are unique and every task is well formed.
pub open spec fn store_wf(s: Seq<(usize, Task)>) -> bool {
    &&& forall|i: int, j: int| 0 <= i < j < s.len() ==> (#[trigger] s[i]).0 != (#[trigger] s[j]).0
    &&& forall|i: int| 0 <= i < s.len() ==> (#[trigger] s[i]).1@.wf()
}

/// Whether some entry carries the id.
pub open spec fn spec_contains(s: Seq<(usize, Task)>, id: usize) -> bool {
    exists|i: int| 0 <= i < s.len() && (#[trigger] s[i]).0 == id
}

/// The largest id in the store, or -1 when empty.
pub open spec fn spec_max_id(s: Seq<(usize, Task)>) -> int
    decreases s.len(),
{
    if s.len() == 0 {
        -1
    } else {
        let rest = spec_max_id(s.drop_last());
        if s.last().0 as int > rest {
            s.last().0 as int
        } else {
            rest
        }
    }
}

/// The id the next added task receives: max existing id + 1, or 0 if empty.
pub open spec fn spec_next_id(s: Seq<(usize, Task)>) -> int {
    spec_max_id(s) + 1
}

/// The minimum over all tasks of their next event, or None if no task
/// yields one.
pub open spec fn spec_earliest(s: Seq<(usize, Task)>, now: int) -> Option<int>
    decreases s.len(),
{
    if s.len() == 0 {
        None
    } else {
        let rest = spec_earliest(s.drop_last(), now);
        match spec_next_event(s.last().1@, now) {
            None => rest,
            Some(e) => match rest {
                None => Some(e),
                Some(m) => if e < m {
                    Some(e)
                } else {
                    Some(m)
                },
            },
        }
    }
}

/// The entries whose status at `now` is not Waiting, in store order.
pub open spec fn spec_digest_filter(s: Seq<(usize, Task)>, now: int) -> Seq<(usize, Task)>
    decreases s.len(),
{
    if s.len() == 0 {
        Seq::empty()
    } else {
        let rest = spec_digest_filter(s.drop_last(), now);
        if spec_status(s.last().1@, now) != TaskStatus::Waiting {
            rest.push(s.last())
        } else {
            rest
        }
    }
}

/// Digest order on tasks: by next event at `now`, with tasks that yield no
/// event ordered first.
pub open spec fn event_le(a: TaskView, b: TaskView, now: int) -> bool {
    match (spec_next_event(a, now), spec_next_event(b, now)) {
        (None, _) => true,
        (Some(_), None) => false,
        (Some(x), Some(y)) => x <= y,
    }
}

/// Every id in the store is at most the maximum id.
proof fn lemma_max_id_bound(s: Seq<(usize, Task)>)
    ensures
        forall|i: int| 0 <= i < s.len() ==> (#[trigger] s[i]).0 as int <= spec_max_id(s),
    decreases s.len(),
{
    if s.len() > 0 {
        lemma_max_id_bound(s.drop_last());
        assert forall|i: int| 0 <= i < s.len() implies (#[trigger] s[i]).0 as int <= spec_max_id(
            s,
        ) by {
            if i < s.len() - 1 {
                assert(s.drop_last()[i] == s[i]);
            }
        }
    }
}

impl Tasks {
    /// An empty store.
    pub fn new() -> (r: Tasks)
        ensures
            r@ =~= Seq::<(usize, Task)>::empty(),
            store_wf(r@),
    {
        Tasks { items: Vec::new() }
    }

    /// Wraps decoded entries as a store; the codec's constructor.
    pub(crate) fn from_entries(items: Vec<(usize, Task)>) -> (r: Tasks)
        ensures
            r@ == items@,
    {
        Tasks { items }
    }

    /// Number of tasks in the store.
    pub fn len(&self) -> (r: usize)
        ensures
            r == self@.len(),
    {
        self.items.len()
    }

    /// All entries, in store order.
    pub fn entries(&self) -> (r: &Vec<(usize, Task)>)
        ensures
            r@ == self@,
    {
        &self.items
    }

    /// The task carrying `uuid`, if any.
    pub fn get_task(&self, uuid: usize) -> (r: Option<&Task>)
        ensures
            match r {
                Some(t) => exists|i: int|
                    0 <= i < self@.len() && #[trigger] self@[i] == (uuid, *t),
                None => !spec_contains(self@, uuid),
            },
    {
        let n = self.items.len();
        let mut i: usize = 0;
        while i < n
            invariant
                i <= n,
                n == self@.len(),
                forall|j: int| 0 <= j < i ==> (#[trigger] self@[j]).0 != uuid,
            decreases n - i,
        {
            if self.items[i].0 == uuid {
                return Some(&self.items[i].1);
            }
            i = i + 1;
        }
        None
    }

    /// Inserts the task under a fresh id: max existing id + 1, or 0 for an
    /// empty store. Always succeeds; returns the assigned id.
    pub fn add_task(&mut self, task: Task) -> (id: usize)
        requires
            store_wf(old(self)@),
            task@.wf(),
            spec_next_id(old(self)@) <= usize::MAX,
        ensures
            id as int == spec_next_id(old(self)@),
            final(self)@ == old(self)@.push((id, task)),
            !spec_contains(old(self)@, id),
            store_wf(final(self)@),
    {
        let n = self.items.len();
        let mut id: usize = 0;
        let mut i: usize = 0;
        proof {
            assert(old(self)@.take(0) =~= Seq::<(usize, Task)>::empty());
        }
        while i < n
            invariant
                i <= n,
                n == self@.len(),
                self@ == old(self)@,
                store_wf(old(self)@),
                spec_next_id(old(self)@) <= usize::MAX,
                id as int == spec_next_id(old(self)@.take(i as int)),
            decreases n - i,
        {
            proof {
                lemma_max_id_bound(old(self)@.take(i as int + 1));
                assert(old(self)@.take(i as int + 1).drop_last() =~= old(self)@.take(i as int));
                assert(old(self)@.take(i as int + 1).last() == old(self)@[i as int]);
                lemma_max_id_prefix(old(self)@, i as int + 1);
            }
            let cur = self.items[i].0;
            if cur >= id {
                id = cur + 1;
            }
            i = i + 1;
        }
        proof {
            assert(old(self)@.take(n as int) =~= old(self)@);
            lemma_max_id_bound(old(self)@);
        }
        self.items.push((id, task));
        id
    }

    /// Replaces the task at `uuid` if present; a silent no-op if absent.
    pub fn modify_task(&mut self, uuid: usize, task_new: Task)
        requires
            store_wf(old(self)@),
            task_new@.wf(),
        ensures
            final(self)@.len() == old(self)@.len(),
            forall|i: int|
                0 <= i < old(self)@.len() && (#[trigger] old(self)@[i]).0 != uuid ==> final(self)@[i] == old(self)@[i],
            forall|i: int|
                0 <= i < old(self)@.len() && (#[trigger] old(self)@[i]).0 == uuid ==> final(self)@[i] == (uuid, task_new),
            store_wf(final(self)@),
    {
        let n = self.items.len();
        let mut i: usize = 0;
        while i < n
            invariant
                i <= n,
                n == self@.len(),
                self@ == old(self)@,
                store_wf(old(self)@),
                task_new@.wf(),
                forall|j: int| 0 <= j < i ==> (#[trigger] old(self)@[j]).0 != uuid,
            decreases n - i,
        {
            if self.items[i].0 == uuid {
                self.items[i] = (uuid, task_new);
                proof {
                    assert forall|a: int| 0 <= a < self@.len() implies (#[trigger] self@[a]).0
                        == old(self)@[a].0 && self@[a].1@.wf() by {
                        if a != i as int {
                            assert(self@[a] == old(self)@[a]);
                        }
                    }
                }
                return ;
            }
            i = i + 1;
        }
    }

    /// Enables the task at `uuid` if present; a silent no-op if absent.
    pub fn enable_task(&mut self, uuid: usize)
        requires
            store_wf(old(self)@),
        ensures
            final(self)@.len() == old(self)@.len(),
            forall|i: int|
                0 <= i < old(self)@.len() && (#[trigger] old(self)@[i]).0 != uuid ==> final(self)@[i] == old(self)@[i],
            forall|i: int|
                0 <= i < old(self)@.len() && (#[trigger] old(self)@[i]).0 == uuid ==> final(self)@[i].0 == uuid && final(self)@[i].1@ == (TaskView {
                    enabled: EnableStatus::Enabled,
                    ..old(self)@[i].1@
                }),
            store_wf(final(self)@),
    {
        let n = self.items.len();
        let mut i: usize = 0;
        while i < n
            invariant
                i <= n,
                n == self@.len(),
                self@ == old(self)@,
                store_wf(old(self)@),
                forall|j: int| 0 <= j < i ==> (#[trigger] old(self)@[j]).0 != uuid,
            decreases n - i,
        {
            if self.items[i].0 == uuid {
                self.items[i].1.enable();
                return ;
            }
            i = i + 1;
        }
    }

    /// Disables the task at `uuid` if present; a silent no-op if absent.
    pub fn disable_task(&mut self, uuid: usize)
        requires
            store_wf(old(self)@),
        ensures
            final(self)@.len() == old(self)@.len(),
            forall|i: int|
                0 <= i < old(self)@.len() && (#[trigger] old(self)@[i]).0 != uuid ==> final(self)@[i] == old(self)@[i],
            forall|i: int|
                0 <= i < old(self)@.len() && (#[trigger] old(self)@[i]).0 == uuid ==> final(self)@[i].0 == uuid && final(self)@[i].1@ == (TaskView {
                    enabled: EnableStatus::Disabled,
                    ..old(self)@[i].1@
                }),
            store_wf(final(self)@),
    {
        let n = self.items.len();
        let mut i: usize = 0;
        while i < n
            invariant
                i <= n,
                n == self@.len(),
                self@ == old(self)@,
                store_wf(old(self)@),
                forall|j: int| 0 <= j < i ==> (#[trigger] old(self)@[j]).0 != uuid,
            decreases n - i,
        {
            if self.items[i].0 == uuid {
                self.items[i].1.disable();
                return ;
            }
            i = i + 1;
        }
    }

    /// Acknowledges the task at `uuid` if present: advances its deadline by
    /// whole multiples of the recurrence step `step` (the caller-chosen
    /// policy) until it is strictly in the future of `now`. A silent no-op
    /// if absent.
    pub fn complete_task(&mut self, uuid: usize, now: i64, step: i64)
        requires
            store_wf(old(self)@),
            step >= 1,
            forall|i: int|
                0 <= i < old(self)@.len() && (#[trigger] old(self)@[i]).0 == uuid ==> now + step
                    + old(self)@[i].1@.post_period <= i64::MAX,
        ensures
            final(self)@.len() == old(self)@.len(),
            forall|i: int|
                0 <= i < old(self)@.len() && (#[trigger] old(self)@[i]).0 != uuid ==> final(self)@[i] == old(self)@[i],
            forall|i: int|
                0 <= i < old(self)@.len() && (#[trigger] old(self)@[i]).0 == uuid ==> final(self)@[i].0 == uuid && final(self)@[i].1@ == (TaskView {
                    deadline: spec_advance_deadline(
                        old(self)@[i].1@.deadline,
                        now as int,
                        step as int,
                    ),
                    ..old(self)@[i].1@
                }),
            store_wf(final(self)@),
    {
        let n = self.items.len();
        let mut i: usize = 0;
        while i < n
            invariant
                i <= n,
                n == self@.len(),
                self@ == old(self)@,
                store_wf(old(self)@),
                step >= 1,
                forall|j: int|
                    0 <= j < old(self)@.len() && (#[trigger] old(self)@[j]).0 == uuid ==> now + step
                        + old(self)@[j].1@.post_period <= i64::MAX,
                forall|j: int| 0 <= j < i ==> (#[trigger] old(self)@[j]).0 != uuid,
            decreases n - i,
        {
            if self.items[i].0 == uuid {
                self.items[i].1.complete(now, step);
                return ;
            }
            i = i + 1;
        }
    }

    /// The earliest next event over all tasks at instant `now`: the minimum
    /// of `get_next_event(now)` over the store, or None if no task yields
    /// an instant (empty store, or every task disabled or Late).
    pub fn earliest_next_event(&self, now: i64) -> (r: Option<i64>)
        requires
            store_wf(self@),
        ensures
            opt_instant(r) == spec_earliest(self@, now as int),
    {
        let n = self.items.len();
        let mut best: Option<i64> = None;
        let mut i: usize = 0;
        proof {
            assert(self@.take(0) =~= Seq::<(usize, Task)>::empty());
        }
        while i < n
            invariant
                i <= n,
                n == self@.len(),
                store_wf(self@),
                opt_instant(best) == spec_earliest(self@.take(i as int), now as int),
            decreases n - i,
        {
            proof {
                assert(self@.take(i as int + 1).drop_last() =~= self@.take(i as int));
                assert(self@.take(i as int + 1).last() == self@[i as int]);
            }
            let e = self.items[i].1.get_next_event(now);
            best = match (best, e) {
                (None, x) => x,
                (Some(m), None) => Some(m),
                (Some(m), Some(x)) => if x < m {
                    Some(x)
                } else {
                    Some(m)
                },
            };
            i = i + 1;
        }
        proof {
            assert(self@.take(n as int) =~= self@);
        }
        best
    }

    /// The digest: every entry whose status at `now` is not Waiting,
    /// ordered by next event (entries yielding no event first). The order
    /// among entries with equal next events is not part of the contract.
    pub fn digest(&self, now: i64) -> (r: Vec<(usize, Task)>)
        requires
            store_wf(self@),
        ensures
            r@.to_multiset() == spec_digest_filter(self@, now as int).to_multiset(),
            forall|i: int, j: int|
                0 <= i < j < r@.len() ==> event_le(
                    (#[trigger] r@[i]).1@,
                    (#[trigger] r@[j]).1@,
                    now as int,
                ),
    {
        let n = self.items.len();
        let mut work: Vec<(usize, Task)> = Vec::new();
        let mut i: usize = 0;
        proof {
            assert(self@.take(0) =~= Seq::<(usize, Task)>::empty());
        }
        while i < n
            invariant
                i <= n,
                n == self@.len(),
                store_wf(self@),
                work@ == spec_digest_filter(self@.take(i as int), now as int),
            decreases n - i,
        {
            proof {
                assert(self@.take(i as int + 1).drop_last() =~= self@.take(i as int));
                assert(self@.take(i as int + 1).last() == self@[i as int]);
            }
            let st = self.items[i].1.get_status(now);
            if st != TaskStatus::Waiting {
                let entry = (self.items[i].0, self.items[i].1.clone());
                proof {
                    assert(entry == self@[i as int]);
                }
                work.push(entry);
            }
            i = i + 1;
        }
        proof {
            assert(self@.take(n as int) =~= self@);
            lemma_digest_filter_wf(self@, now as int);
        }
        let ghost full: Seq<(usize, Task)> = work@;
        let mut out: Vec<(usize, Task)> = Vec::new();
        proof {
            broadcast use vstd::seq_lib::group_to_multiset_ensures;
            broadcast use vstd::multiset::group_multiset_axioms;

            assert(out@.to_multiset().add(work@.to_multiset()) =~= full.to_multiset());
        }
        while work.len() > 0
            invariant
                out@.to_multiset().add(work@.to_multiset()) == full.to_multiset(),
                forall|a: int| 0 <= a < work@.len() ==> (#[trigger] work@[a]).1@.wf(),
                forall|a: int, b: int|
                    0 <= a < b < out@.len() ==> event_le(
                        (#[trigger] out@[a]).1@,
                        (#[trigger] out@[b]).1@,
                        now as int,
                    ),
                forall|a: int, b: int|
                    0 <= a < out@.len() && 0 <= b < work@.len() ==> event_le(
                        (#[trigger] out@[a]).1@,
                        (#[trigger] work@[b]).1@,
                        now as int,
                    ),
            decreases work@.len(),
        {
            let mut m: usize = 0;
            let mut k: usize = 1;
            while k < work.len()
                invariant
                    0 < work@.len(),
                    m < k <= work@.len(),
                    forall|a: int| 0 <= a < work@.len() ==> (#[trigger] work@[a]).1@.wf(),
                    forall|b: int|
                        0 <= b < k ==> event_le(
                            work@[m as int].1@,
                            (#[trigger] work@[b]).1@,
                            now as int,
                        ),
                decreases work@.len() - k,
            {
                if !event_le_exec(&work[m].1, &work[k].1, now) {
                    m = k;
                }
                k = k + 1;
            }
            let ghost out_prev = out@;
            let ghost work_prev = work@;
            let x = work.remove(m);
            out.push(x);
            proof {
                broadcast use vstd::multiset::group_multiset_axioms;

                vstd::seq_lib::to_multiset_build(out_prev, x);
                vstd::seq_lib::to_multiset_remove(work_prev, m as int);
                vstd::seq_lib::to_multiset_contains(work_prev, x);
                assert(work_prev.contains(x));
                assert(out@.to_multiset().add(work@.to_multiset()) =~= full.to_multiset());
            }
        }
        proof {
            broadcast use vstd::multiset::group_multiset_axioms;

            vstd::seq_lib::to_multiset_len(work@);
            vstd::multiset::lemma_multiset_empty_len(work@.to_multiset());
            assert(out@.to_multiset().add(work@.to_multiset()) =~= out@.to_multiset());
        }
        out
    }

    /// Recomputes the earliest next event against the current clock. The
    /// returned instant, if any, is the store's earliest next event for the
    /// instant the clock handed back.
    pub fn update_all(&self) -> (r: Option<i64>)
        requires
            store_wf(self@),
        ensures
            exists|n: int| opt_instant(r) == spec_earliest(self@, n),
    {
        let now = crate::schedule::now_utc_secs();
        let r = self.earliest_next_event(now);
        proof {
            assert(opt_instant(r) == spec_earliest(self@, now as int));
        }
        r
    }
}

/// Max id of a prefix never exceeds the max id of the whole store.
proof fn lemma_max_id_prefix(s: Seq<(usize, Task)>, k: int)
    requires
        0 <= k <= s.len(),
    ensures
        spec_max_id(s.take(k)) <= spec_max_id(s),
    decreases s.len() - k,
{
    if k < s.len() {
        lemma_max_id_prefix(s, k + 1);
        assert(s.take(k + 1).drop_last() =~= s.take(k));
    } else {
        assert(s.take(k) =~= s);
    }
}

/// Exec comparison realizing `event_le`.
fn event_le_exec(a: &Task, b: &Task, now: i64) -> (r: bool)
    requires
        a@.wf(),
        b@.wf(),
    ensures
        r == event_le(a@, b@, now as int),
{
    match (a.get_next_event(now), b.get_next_event(now)) {
        (None, _) => true,
        (Some(_), None) => false,
        (Some(x), Some(y)) => x <= y,
    }
}

/// Every task in the digest filter of a well-formed store is well formed.
proof fn lemma_digest_filter_wf(s: Seq<(usize, Task)>, now: int)
    requires
        store_wf(s),
    ensures
        forall|i: int|
            0 <= i < spec_digest_filter(s, now).len() ==> (#[trigger] spec_digest_filter(
                s,
                now,
            )[i]).1@.wf(),
    decreases s.len(),
{
    if s.len() > 0 {
        assert(forall|i: int| 0 <= i < s.len() - 1 ==> s.drop_last()[i] == s[i]);
        lemma_digest_filter_wf(s.drop_last(), now);
        assert(s.last() == s[s.len() - 1]);
        let f = spec_digest_filter(s, now);
        let rest = spec_digest_filter(s.drop_last(), now);
        assert forall|i: int| 0 <= i < f.len() implies (#[trigger] f[i]).1@.wf() by {
            if i < rest.len() {
                assert(f[i] == rest[i]);
            } else {
                assert(f[i] == s.last());
            }
        }
    }
}

/// Law: a store whose ids are exactly its positions (the result of adding
/// tasks one by one to an empty store) assigns the next id equal to its
/// length; so adding n tasks to an empty store assigns ids 0..n-1 in
/// insertion order.
pub proof fn lemma_sequential_ids(s: Seq<(usize, Task)>)
    requires
        forall|i: int| 0 <= i < s.len() ==> (#[trigger] s[i]).0 as int == i,
    ensures
        spec_next_id(s) == s.len(),
    decreases s.len(),
{
    if s.len() > 0 {
        assert forall|i: int| 0 <= i < s.drop_last().len() implies (#[trigger] s.drop_last()[i]).0
            as int == i by {
            assert(s.drop_last()[i] == s[i]);
        }
        lemma_sequential_ids(s.drop_last());
    }
}

/// Law: the earliest next event is None exactly when no task yields a next
/// event: the store is empty, or every task is disabled or Late.
pub proof fn lemma_earliest_none_iff(s: Seq<(usize, Task)>, now: int)
    ensures
        spec_earliest(s, now) is None <==> forall|i: int|
            0 <= i < s.len() ==> spec_next_event((#[trigger] s[i]).1@, now) is None,
    decreases s.len(),
{
    if s.len() > 0 {
        lemma_earliest_none_iff(s.drop_last(), now);
        assert(forall|i: int| 0 <= i < s.len() - 1 ==> s.drop_last()[i] == s[i]);
        assert(s.last() == s[s.len() - 1]);
    }
}

/// Law: when the earliest next event exists, it is the next event of some
/// task and no task yields an earlier one.
pub proof fn lemma_earliest_is_min(s: Seq<(usize, Task)>, now: int)
    ensures
        spec_earliest(s, now) matches Some(m) ==> (exists|i: int|
            0 <= i < s.len() && spec_next_event((#[trigger] s[i]).1@, now) == Some(m)),
        spec_earliest(s, now) matches Some(m) ==> forall|i: int|
            0 <= i < s.len() && spec_next_event((#[trigger] s[i]).1@, now) is Some ==> m
                <= spec_next_event(s[i].1@, now)->Some_0,
    decreases s.len(),
{
    if s.len() > 0 {
        let pre = s.drop_last();
        lemma_earliest_is_min(pre, now);
        lemma_earliest_none_iff(pre, now);
        assert(forall|i: int| 0 <= i < s.len() - 1 ==> s.drop_last()[i] == s[i]);
        assert(s.last() == s[s.len() - 1]);
        match spec_earliest(s, now) {
            Some(m) => {
                assert forall|i: int|
                    0 <= i < s.len() && spec_next_event((#[trigger] s[i]).1@, now)
                        is Some implies m <= spec_next_event(s[i].1@, now)->Some_0 by {
                    if i < s.len() - 1 {
                        assert(pre[i] == s[i]);
                        assert(spec_earliest(pre, now) is Some);
                    }
                }
            },
            None => {},
        }
    }
}

} // verus!
