use vstd::prelude::*;

verus! {

/// Classifies a failed execution attempt.
#[derive(Debug, PartialEq, Eq, Copy, Clone, Structural)]
pub enum WorkError {
    /// The unit of work is not backed by real logic yet.
    NotImplemented,
    /// An unclassified failure.
    Unknown,
    /// A failure that should not be retried.
    Unrecoverable,
    /// A failure that could be retried.
    Recoverable,
}

/// A unit of work's own report of its progress.
#[derive(Debug, PartialEq, Eq, Copy, Clone, Structural)]
pub enum WorkStatus {
    /// The work has not started.
    NotStarted,
    /// The work is in progress.
    InProgress,
    /// The work is complete.
    Complete,
}

/// The engine's view of a work item's lifecycle.
#[derive(Debug, PartialEq, Eq, Copy, Clone, Structural)]
pub enum WorkItemStatus {
    /// The item has not been dispatched yet.
    NotStarted,
    /// The item's work was started and has not reported completion.
    InProgress,
    /// The item's work reported completion.
    Complete,
    /// The item failed with the given error.
    Error(WorkError),
}

/// A unit of work that the engine can drive: start it once, then poll its
/// progress.
pub trait Work {
    /// Performs the work once; may block the calling thread.
    fn execute(&self) -> Result<(), WorkError>;

    /// Reports the work's own progress without re-executing it.
    fn status(&self) -> WorkStatus;
}

/// One registered unit of work together with the engine's bookkeeping:
/// a stable id, display metadata, and the engine's view of its lifecycle.
pub struct WorkItem {
    id: u64,
    name: String,
    description: Option<String>,
    status: WorkItemStatus,
    work: Box<dyn Work>,
}

impl WorkItem {
    /// The id the engine assigned to this item.
    pub closed spec fn spec_id(&self) -> u64 {
        self.id
    }

    /// The item's display name.
    pub closed spec fn spec_name(&self) -> String {
        self.name
    }

    /// The item's optional description.
    pub closed spec fn spec_description(&self) -> Option<String> {
        self.description
    }

    /// The engine's view of the item's lifecycle.
    pub closed spec fn spec_status(&self) -> WorkItemStatus {
        self.status
    }

    /// The unit of work the item wraps.
    pub closed spec fn spec_work(&self) -> Box<dyn Work> {
        self.work
    }

    /// The id the engine assigned to this item.
    pub fn id(&self) -> (id: u64)
        ensures
            id == self.spec_id(),
    {
        self.id
    }

    /// The item's display name.
    pub fn name(&self) -> (name: &String)
        ensures
            name == self.spec_name(),
    {
        &self.name
    }

    /// The item's optional description.
    pub fn description(&self) -> (description: &Option<String>)
        ensures
            description == self.spec_description(),
    {
        &self.description
    }

    /// The engine's view of the item's lifecycle.
    pub fn status(&self) -> (status: WorkItemStatus)
        ensures
            status == self.spec_status(),
    {
        self.status
    }
}

/// How one dispatch visit changes an item: a `NotStarted` item whose work was
/// started moves to `InProgress`; everything else about the item is unchanged.
pub open spec fn dispatch_step(pre: WorkItem, post: WorkItem) -> bool {
    &&& post.spec_id() == pre.spec_id()
    &&& post.spec_name() == pre.spec_name()
    &&& post.spec_description() == pre.spec_description()
    &&& post.spec_work() == pre.spec_work()
    &&& post.spec_status() == (if pre.spec_status() == WorkItemStatus::NotStarted {
        WorkItemStatus::InProgress
    } else {
        pre.spec_status()
    })
}

/// How one poll visit may change an item: an `InProgress` item either stays
/// `InProgress` or moves to `Complete`, depending on what its work reports;
/// any other item is untouched.
pub open spec fn poll_step(pre: WorkItem, post: WorkItem) -> bool {
    &&& post.spec_id() == pre.spec_id()
    &&& post.spec_name() == pre.spec_name()
    &&& post.spec_description() == pre.spec_description()
    &&& post.spec_work() == pre.spec_work()
    &&& if pre.spec_status() == WorkItemStatus::InProgress {
        post.spec_status() == WorkItemStatus::InProgress
            || post.spec_status() == WorkItemStatus::Complete
    } else {
        post.spec_status() == pre.spec_status()
    }
}

impl WorkItem {
    /// Records the outcome of this item's `execute` call during a dispatch
    /// pass: `Ok` moves the item to `InProgress`; any error leaves it
    /// untouched and is reported as `WorkError::Unknown`.
    pub fn apply_execute_outcome(&mut self, outcome: Result<(), WorkError>) -> (r: Result<
        (),
        WorkError,
    >)
        requires
            old(self).spec_status() == WorkItemStatus::NotStarted,
        ensures
            match outcome {
                Ok(()) => r == Ok::<(), WorkError>(()) && dispatch_step(*old(self), *final(self)),
                Err(_) => r == Err::<(), WorkError>(WorkError::Unknown) && *final(self) == *old(
                    self,
                ),
            },
    {
        if outcome.is_ok() {
            self.status = WorkItemStatus::InProgress;
            Ok(())
        } else {
            Err(WorkError::Unknown)
        }
    }

    /// Records what this item's work reported during a poll pass: a report of
    /// `Complete` moves an `InProgress` item to `Complete`; any other report
    /// leaves the item untouched.
    pub fn apply_status_report(&mut self, report: WorkStatus)
        requires
            old(self).spec_status() == WorkItemStatus::InProgress,
        ensures
            poll_step(*old(self), *final(self)),
            final(self).spec_status() == (if report == WorkStatus::Complete {
                WorkItemStatus::Complete
            } else {
                WorkItemStatus::InProgress
            }),
    {
        if report == WorkStatus::Complete {
            self.status = WorkItemStatus::Complete;
        }
    }
}

/// Appending an element and then dropping the last element gives the
/// original sequence back.
proof fn lemma_push_drop_last<A>(s: Seq<A>, x: A)
    ensures
        s.push(x).drop_last() == s,
        s.push(x).last() == x,
{
    assert(s.push(x).drop_last() =~= s);
}

/// The ids of a sequence of work items, in the same order.
pub open spec fn ids_of(s: Seq<WorkItem>) -> Seq<u64> {
    s.map_values(|w: WorkItem| w.spec_id())
}

/// The engine that drives work items through their lifecycle and archives
/// the completed ones.
pub struct WorkEngine {
    work_items: Vec<WorkItem>,
    completed_work_items: Vec<WorkItem>,
    work_item_counter: u64,
    stop: bool,
}

impl WorkEngine {
    /// The active collection, in submission order.
    pub closed spec fn active(&self) -> Seq<WorkItem> {
        self.work_items@
    }

    /// The archive of completed items, in completion-detection order.
    pub closed spec fn completed(&self) -> Seq<WorkItem> {
        self.completed_work_items@
    }

    /// The next id to assign.
    pub closed spec fn counter(&self) -> u64 {
        self.work_item_counter
    }

    /// Whether the engine has been told to stop.
    pub closed spec fn stop_requested(&self) -> bool {
        self.stop
    }

    /// Every item the engine tracks: the active collection followed by the
    /// archive.
    pub open spec fn all_items(&self) -> Seq<WorkItem> {
        self.active() + self.completed()
    }

    /// The engine's invariant: every tracked item has an id below the
    /// counter, no id appears twice across the two collections, the engine
    /// never assigns the `Error` lifecycle value, and every archived item is
    /// `Complete`.
    pub open spec fn wf(&self) -> bool {
        &&& forall|i: int|
            0 <= i < self.all_items().len() ==> (#[trigger] self.all_items()[i]).spec_id()
                < self.counter()
        &&& ids_of(self.all_items()).no_duplicates()
        &&& forall|i: int|
            0 <= i < self.all_items().len() ==> !((#[trigger] self.all_items()[i]).spec_status()
                matches WorkItemStatus::Error(_))
        &&& forall|i: int|
            0 <= i < self.completed().len() ==> (#[trigger] self.completed()[i]).spec_status()
                == WorkItemStatus::Complete
    }

    /// Creates an engine with no items, the counter at zero, and the stop
    /// flag clear.
    pub fn new() -> (engine: WorkEngine)
        ensures
            engine.active() == Seq::<WorkItem>::empty(),
            engine.completed() == Seq::<WorkItem>::empty(),
            engine.counter() == 0,
            !engine.stop_requested(),
            engine.wf(),
    {
        let engine = WorkEngine {
            work_items: Vec::new(),
            completed_work_items: Vec::new(),
            work_item_counter: 0,
            stop: false,
        };
        proof {
            assert(engine.all_items() =~= Seq::<WorkItem>::empty());
            assert(ids_of(engine.all_items()) =~= Seq::<u64>::empty());
        }
        engine
    }

    /// Asks the engine to stop: the run loop returns at its next
    /// iteration boundary.
    pub fn stop(&mut self)
        ensures
            final(self).stop_requested(),
            final(self).active() == old(self).active(),
            final(self).completed() == old(self).completed(),
            final(self).counter() == old(self).counter(),
            old(self).wf() ==> final(self).wf(),
    {
        self.stop = true;
    }

    /// Appends a work item to the active collection.
    fn add_work_item(&mut self, work_item: WorkItem)
        ensures
            final(self).active().len() == old(self).active().len() + 1,
            final(self).active().drop_last() == old(self).active(),
            final(self).active().last() == work_item,
            final(self).completed() == old(self).completed(),
            final(self).counter() == old(self).counter(),
            final(self).stop_requested() == old(self).stop_requested(),
    {
        self.work_items.push(work_item);
        proof {
            lemma_push_drop_last(old(self).work_items@, work_item);
        }
    }

    /// Wraps `work` as a `NotStarted` item carrying the next id from the
    /// counter, appends it to the active collection, and returns the id.
    pub fn add<T: Work + 'static>(
        &mut self,
        name: String,
        description: Option<String>,
        work: T,
    ) -> (id: u64)
        requires
            old(self).counter() < u64::MAX,
        ensures
            id == old(self).counter(),
            final(self).counter() == old(self).counter() + 1,
            final(self).completed() == old(self).completed(),
            final(self).stop_requested() == old(self).stop_requested(),
            final(self).active().len() == old(self).active().len() + 1,
            final(self).active().drop_last() == old(self).active(),
            final(self).active().last().spec_id() == id,
            final(self).active().last().spec_name() == name,
            final(self).active().last().spec_description() == description,
            final(self).active().last().spec_status() == WorkItemStatus::NotStarted,
            old(self).wf() ==> final(self).wf(),
    {
        let ghost pre = *self;
        let work_item = WorkItem {
            id: self.work_item_counter,
            name,
            description,
            status: WorkItemStatus::NotStarted,
            work: Box::new(work),
        };
        let ghost new_item = work_item;
        self.add_work_item(work_item);
        self.work_item_counter = self.work_item_counter + 1;
        proof {
            assert(self.active() == pre.active().push(new_item));
            lemma_push_drop_last(pre.active(), new_item);
            if pre.wf() {
                lemma_wf_after_add(pre, *self, new_item);
            }
        }
        self.work_item_counter - 1
    }

    /// One dispatch pass: visits the active items in position order and
    /// calls `execute` once on each `NotStarted` one. A successful call
    /// moves the item to `InProgress`; the first failing call aborts the
    /// pass, reported as `WorkError::Unknown`, leaving the failing item and
    /// every later item exactly as they were.
    pub fn dispatch_pass(&mut self) -> (r: Result<(), WorkError>)
        ensures
            final(self).completed() == old(self).completed(),
            final(self).counter() == old(self).counter(),
            final(self).stop_requested() == old(self).stop_requested(),
            final(self).active().len() == old(self).active().len(),
            match r {
                Ok(()) => forall|i: int|
                    0 <= i < old(self).active().len() ==> dispatch_step(
                        old(self).active()[i],
                        #[trigger] final(self).active()[i],
                    ),
                Err(e) => e == WorkError::Unknown && dispatch_failed(
                    old(self).active(),
                    final(self).active(),
                ),
            },
            old(self).wf() ==> final(self).wf(),
    {
        let ghost pre = *self;
        let mut i: usize = 0;
        while i < self.work_items.len()
            invariant
                pre == *old(self),
                i <= self.work_items@.len(),
                self.work_items@.len() == pre.active().len(),
                self.completed_work_items@ == pre.completed(),
                self.work_item_counter == pre.counter(),
                self.stop == pre.stop_requested(),
                forall|j: int|
                    0 <= j < i ==> dispatch_step(pre.active()[j], #[trigger] self.work_items@[j]),
                forall|j: int|
                    i <= j < pre.active().len() ==> #[trigger] self.work_items@[j]
                        == pre.active()[j],
            decreases pre.active().len() - i,
        {
            if self.work_items[i].status() == WorkItemStatus::NotStarted {
                let outcome = self.work_items[i].work.execute();
                let res = self.work_items[i].apply_execute_outcome(outcome);
                if res.is_err() {
                    proof {
                        assert(dispatch_failed_at(pre.active(), self.work_items@, i as int));
                        if pre.wf() {
                            lemma_dispatch_poll_wf(pre, *self);
                        }
                    }
                    return res;
                }
            }
            i = i + 1;
        }
        proof {
            if pre.wf() {
                lemma_dispatch_poll_wf(pre, *self);
            }
        }
        Ok(())
    }

    /// One poll pass: asks every `InProgress` item's work for its status and
    /// marks the item `Complete` when the work reports `Complete`. This pass
    /// never fails.
    pub fn poll_pass(&mut self) -> (r: Result<(), WorkError>)
        ensures
            r == Ok::<(), WorkError>(()),
            final(self).completed() == old(self).completed(),
            final(self).counter() == old(self).counter(),
            final(self).stop_requested() == old(self).stop_requested(),
            final(self).active().len() == old(self).active().len(),
            forall|i: int|
                0 <= i < old(self).active().len() ==> poll_step(
                    old(self).active()[i],
                    #[trigger] final(self).active()[i],
                ),
            old(self).wf() ==> final(self).wf(),
    {
        let ghost pre = *self;
        let mut i: usize = 0;
        while i < self.work_items.len()
            invariant
                pre == *old(self),
                i <= self.work_items@.len(),
                self.work_items@.len() == pre.active().len(),
                self.completed_work_items@ == pre.completed(),
                self.work_item_counter == pre.counter(),
                self.stop == pre.stop_requested(),
                forall|j: int|
                    0 <= j < i ==> poll_step(pre.active()[j], #[trigger] self.work_items@[j]),
                forall|j: int|
                    i <= j < pre.active().len() ==> #[trigger] self.work_items@[j]
                        == pre.active()[j],
            decreases pre.active().len() - i,
        {
            if self.work_items[i].status() == WorkItemStatus::InProgress {
                let report = self.work_items[i].work.status();
                self.work_items[i].apply_status_report(report);
            }
            i = i + 1;
        }
        proof {
            if pre.wf() {
                lemma_dispatch_poll_wf(pre, *self);
            }
        }
        Ok(())
    }

    /// One full iteration of the scheduling loop: a dispatch pass, then a
    /// poll pass, then the sweep. On `Ok` there was a point — right after
    /// the poll pass — at which every item had advanced by one iteration
    /// step; the sweep then split those items into the items kept active
    /// and the items archived. On `Err` the dispatch pass failed: the error
    /// is reported as `WorkError::Unknown`, the archive is untouched, and
    /// the active collection is exactly as the failed pass left it.
    pub fn run_iteration(&mut self) -> (r: Result<(), WorkError>)
        requires
            old(self).wf(),
        ensures
            final(self).wf(),
            final(self).counter() == old(self).counter(),
            final(self).stop_requested() == old(self).stop_requested(),
            old(self).completed().is_prefix_of(final(self).completed()),
            match r {
                Ok(()) => exists|mid: Seq<WorkItem>|
                    #[trigger] iteration_outcome(*old(self), *final(self), mid),
                Err(e) => e == WorkError::Unknown && final(self).completed() == old(
                    self,
                ).completed() && dispatch_failed(old(self).active(), final(self).active()),
            },
    {
        let ghost pre = *self;
        let ret = self.dispatch_pass();
        if !ret.is_ok() {
            return ret;
        }
        let ghost after_dispatch = *self;
        let ret = self.poll_pass();
        // The poll pass reports Ok today; the short circuit stands ready
        // for the day it can fail.
        if !ret.is_ok() {
            return ret;
        }
        let ghost mid = self.work_items@;
        self.move_completed_work_items();
        proof {
            assert(self.completed().subrange(0, pre.completed().len() as int) =~= pre.completed());
            assert forall|i: int| 0 <= i < pre.active().len() implies iteration_step(
                pre.active()[i],
                #[trigger] mid[i],
            ) by {
                assert(dispatch_step(pre.active()[i], after_dispatch.active()[i]));
                assert(poll_step(after_dispatch.active()[i], mid[i]));
            }
            assert(iteration_outcome(pre, *self, mid));
        }
        Ok(())
    }

    /// The sweep: moves every `Complete` item from the active collection to
    /// the end of the archive, keeping the relative order of the moved items
    /// and of the items left behind. Removal never skips an element or
    /// touches a stale position: the scan index only advances past items
    /// that stay.
    pub fn move_completed_work_items(&mut self)
        ensures
            final(self).active() == not_complete_items(old(self).active()),
            final(self).completed() == old(self).completed() + complete_items(old(self).active()),
            final(self).counter() == old(self).counter(),
            final(self).stop_requested() == old(self).stop_requested(),
            forall|i: int|
                0 <= i < final(self).active().len() ==> (#[trigger] final(self).active()[i]).spec_status()
                    != WorkItemStatus::Complete,
            old(self).wf() ==> final(self).wf(),
    {
        let ghost pre = *self;
        let ghost n = pre.active().len() as int;
        let ghost mut j: int = 0;
        let mut i: usize = 0;
        proof {
            assert(pre.active().subrange(0, 0) =~= Seq::<WorkItem>::empty());
            assert(not_complete_items(Seq::<WorkItem>::empty()) =~= Seq::<WorkItem>::empty());
            assert(complete_items(Seq::<WorkItem>::empty()) =~= Seq::<WorkItem>::empty());
            assert(pre.active().subrange(0, n) =~= pre.active());
            assert(self.work_items@ =~= not_complete_items(pre.active().subrange(0, 0))
                + pre.active().subrange(0, n));
            assert(self.completed_work_items@ =~= pre.completed() + complete_items(
                pre.active().subrange(0, 0),
            ));
        }
        while i < self.work_items.len()
            invariant
                pre == *old(self),
                n == pre.active().len(),
                0 <= j <= n,
                i as int == not_complete_items(pre.active().subrange(0, j)).len(),
                self.work_items@ == not_complete_items(pre.active().subrange(0, j))
                    + pre.active().subrange(j, n),
                self.completed_work_items@ == pre.completed() + complete_items(
                    pre.active().subrange(0, j),
                ),
                self.work_item_counter == pre.counter(),
                self.stop == pre.stop_requested(),
                pre.wf() ==> self.wf(),
            decreases n - j,
        {
            let ghost iter_pre = *self;
            let ghost kept = not_complete_items(pre.active().subrange(0, j));
            let ghost rest = pre.active().subrange(j, n);
            let ghost x = pre.active()[j];
            proof {
                assert(j < n);
                assert(self.work_items@[i as int] == rest[0]);
                assert(rest[0] == pre.active()[j]);
                assert(pre.active().subrange(0, j + 1) =~= pre.active().subrange(0, j).push(x));
                lemma_partition_push(pre.active().subrange(0, j), x);
                assert(rest.subrange(1, rest.len() as int) =~= pre.active().subrange(j + 1, n));
            }
            if self.work_items[i].status() == WorkItemStatus::Complete {
                let work_item = self.work_items.remove(i);
                self.completed_work_items.push(work_item);
                proof {
                    assert(iter_pre.work_items@.remove(i as int) =~= kept + pre.active().subrange(
                        j + 1,
                        n,
                    ));
                    assert(self.completed_work_items@ =~= pre.completed() + complete_items(
                        pre.active().subrange(0, j + 1),
                    ));
                    if pre.wf() {
                        lemma_sweep_step_wf(iter_pre, *self, i as int);
                    }
                    j = j + 1;
                }
            } else {
                i = i + 1;
                proof {
                    assert(iter_pre.work_items@ =~= kept.push(x) + pre.active().subrange(j + 1, n));
                    j = j + 1;
                }
            }
        }
        proof {
            assert(j == n);
            assert(pre.active().subrange(0, n) =~= pre.active());
            assert(pre.active().subrange(n, n) =~= Seq::<WorkItem>::empty());
            assert(self.work_items@ =~= not_complete_items(pre.active()));
            broadcast use vstd::seq_lib::group_filter_ensures;

            assert forall|i2: int| 0 <= i2 < self.work_items@.len() implies (
            #[trigger] self.work_items@[i2]).spec_status() != WorkItemStatus::Complete by {}
        }
    }

    /// Whether the engine has been asked to stop; the scheduling loop
    /// checks this at each iteration boundary.
    pub fn should_stop(&self) -> (s: bool)
        ensures
            s == self.stop_requested(),
    {
        self.stop
    }

    /// How many items are in the active collection.
    pub fn active_len(&self) -> (n: usize)
        ensures
            n == self.active().len(),
    {
        self.work_items.len()
    }

    /// How many items are in the archive of completed items.
    pub fn completed_len(&self) -> (n: usize)
        ensures
            n == self.completed().len(),
    {
        self.completed_work_items.len()
    }

    /// The active item at the given position.
    pub fn active_item(&self, i: usize) -> (item: &WorkItem)
        requires
            i < self.active().len(),
        ensures
            *item == self.active()[i as int],
    {
        &self.work_items[i]
    }

    /// The archived item at the given position.
    pub fn completed_item(&self, i: usize) -> (item: &WorkItem)
        requires
            i < self.completed().len(),
        ensures
            *item == self.completed()[i as int],
    {
        &self.completed_work_items[i]
    }
}

/// After a pass that relates every active item to its old value by
/// `dispatch_step` or `poll_step`, the engine's invariant is preserved.
proof fn lemma_dispatch_poll_wf(pre: WorkEngine, post: WorkEngine)
    requires
        pre.wf(),
        post.counter() == pre.counter(),
        post.completed() == pre.completed(),
        post.active().len() == pre.active().len(),
        forall|i: int|
            0 <= i < pre.active().len() ==> dispatch_step(
                pre.active()[i],
                #[trigger] post.active()[i],
            ) || poll_step(pre.active()[i], #[trigger] post.active()[i]) || post.active()[i]
                == pre.active()[i],
    ensures
        post.wf(),
{
    assert forall|i: int| 0 <= i < pre.active().len() implies (
    #[trigger] post.active()[i]).spec_id() == pre.active()[i].spec_id() by {}
    assert forall|i: int| 0 <= i < pre.active().len() implies !((
    #[trigger] post.active()[i]).spec_status() matches WorkItemStatus::Error(_)) by {
        assert(pre.all_items()[i] == pre.active()[i]);
        assert(!(pre.active()[i].spec_status() matches WorkItemStatus::Error(_)));
    }
    lemma_wf_preserved_pointwise(pre, post);
}

/// The items of `s` that are not yet `Complete`, in their original order.
pub open spec fn not_complete_items(s: Seq<WorkItem>) -> Seq<WorkItem> {
    s.filter(|w: WorkItem| w.spec_status() != WorkItemStatus::Complete)
}

/// The items of `s` that are `Complete`, in their original order.
pub open spec fn complete_items(s: Seq<WorkItem>) -> Seq<WorkItem> {
    s.filter(|w: WorkItem| w.spec_status() == WorkItemStatus::Complete)
}

/// How one appended item extends each half of the complete / not-complete
/// partition.
proof fn lemma_partition_push(s: Seq<WorkItem>, x: WorkItem)
    ensures
        x.spec_status() == WorkItemStatus::Complete ==> complete_items(s.push(x))
            == complete_items(s).push(x) && not_complete_items(s.push(x)) == not_complete_items(s),
        x.spec_status() != WorkItemStatus::Complete ==> complete_items(s.push(x))
            == complete_items(s) && not_complete_items(s.push(x)) == not_complete_items(s).push(x),
{
    reveal(Seq::filter);
    lemma_push_drop_last(s, x);
    assert(s.push(x).len() == s.len() + 1);
}

/// Moving the element at position `p` to the end of a sequence with no
/// duplicate elements leaves it without duplicates.
proof fn lemma_no_dup_move_to_end(s: Seq<u64>, p: int)
    requires
        0 <= p < s.len(),
        s.no_duplicates(),
    ensures
        s.remove(p).push(s[p]).no_duplicates(),
{
    let t = s.remove(p).push(s[p]);
    assert(t.len() == s.len());
    assert forall|i: int, j: int|
        0 <= i < t.len() && 0 <= j < t.len() && i != j implies t[i] != t[j] by {
        let oi: int = if i == t.len() - 1 {
            p
        } else if i < p {
            i
        } else {
            i + 1
        };
        let oj: int = if j == t.len() - 1 {
            p
        } else if j < p {
            j
        } else {
            j + 1
        };
        assert(t[i] == s[oi]);
        assert(t[j] == s[oj]);
        assert(oi != oj);
    }
}

/// Moving an active item to the end of the archive rearranges the combined
/// collection by moving that item to its end.
proof fn lemma_combined_move_to_end(a: Seq<WorkItem>, c: Seq<WorkItem>, p: int)
    requires
        0 <= p < a.len(),
    ensures
        a.remove(p) + c.push(a[p]) == (a + c).remove(p).push((a + c)[p]),
{
    assert((a + c)[p] == a[p]);
    assert(a.remove(p) + c.push(a[p]) =~= (a + c).remove(p).push((a + c)[p]));
}

/// `ids_of` commutes with removing an element.
proof fn lemma_ids_remove(s: Seq<WorkItem>, p: int)
    requires
        0 <= p < s.len(),
    ensures
        ids_of(s.remove(p)) == ids_of(s).remove(p),
{
    assert(ids_of(s.remove(p)) =~= ids_of(s).remove(p));
}

/// `ids_of` commutes with appending an element.
proof fn lemma_ids_push(s: Seq<WorkItem>, x: WorkItem)
    ensures
        ids_of(s.push(x)) == ids_of(s).push(x.spec_id()),
{
    assert(ids_of(s.push(x)) =~= ids_of(s).push(x.spec_id()));
}

/// One sweep step — moving one `Complete` item from the active collection
/// to the end of the archive — preserves the engine's invariant.
proof fn lemma_sweep_step_wf(pre: WorkEngine, post: WorkEngine, p: int)
    requires
        pre.wf(),
        0 <= p < pre.active().len(),
        pre.active()[p].spec_status() == WorkItemStatus::Complete,
        post.active() == pre.active().remove(p),
        post.completed() == pre.completed().push(pre.active()[p]),
        post.counter() == pre.counter(),
    ensures
        post.wf(),
{
    let a = pre.active();
    let c = pre.completed();
    let x = a[p];
    let all_pre = pre.all_items();
    let all_post = post.all_items();
    lemma_combined_move_to_end(a, c, p);
    assert(all_post == all_pre.remove(p).push(all_pre[p]));
    lemma_ids_remove(all_pre, p);
    lemma_ids_push(all_pre.remove(p), all_pre[p]);
    assert(ids_of(all_post) == ids_of(all_pre).remove(p).push(all_pre[p].spec_id()));
    assert(ids_of(all_pre)[p] == all_pre[p].spec_id());
    lemma_no_dup_move_to_end(ids_of(all_pre), p);
    assert(ids_of(all_post).no_duplicates());
    assert forall|i: int| 0 <= i < all_post.len() implies (#[trigger] all_post[i]).spec_id()
        < post.counter() by {
        let oi: int = if i == all_post.len() - 1 {
            p
        } else if i < p {
            i
        } else {
            i + 1
        };
        assert(all_post[i] == all_pre[oi]);
        assert(all_pre[oi].spec_id() < pre.counter());
    }
    assert forall|i: int| 0 <= i < all_post.len() implies !((
    #[trigger] all_post[i]).spec_status() matches WorkItemStatus::Error(_)) by {
        let oi: int = if i == all_post.len() - 1 {
            p
        } else if i < p {
            i
        } else {
            i + 1
        };
        assert(all_post[i] == all_pre[oi]);
        assert(!(all_pre[oi].spec_status() matches WorkItemStatus::Error(_)));
    }
    assert forall|i: int| 0 <= i < post.completed().len() implies (
    #[trigger] post.completed()[i]).spec_status() == WorkItemStatus::Complete by {
        if i < c.len() {
            assert(pre.completed()[i].spec_status() == WorkItemStatus::Complete);
        }
    }
}

/// How one whole loop iteration (dispatch pass then poll pass) may change
/// an item before the sweep: a `NotStarted` or `InProgress` item ends the
/// iteration `InProgress` or `Complete`, depending on what its work did and
/// reported; any other item is untouched.
pub open spec fn iteration_step(pre: WorkItem, post: WorkItem) -> bool {
    &&& post.spec_id() == pre.spec_id()
    &&& post.spec_name() == pre.spec_name()
    &&& post.spec_description() == pre.spec_description()
    &&& post.spec_work() == pre.spec_work()
    &&& if pre.spec_status() == WorkItemStatus::NotStarted || pre.spec_status()
        == WorkItemStatus::InProgress {
        post.spec_status() == WorkItemStatus::InProgress || post.spec_status()
            == WorkItemStatus::Complete
    } else {
        post.spec_status() == pre.spec_status()
    }
}

/// What a successful loop iteration did to the engine: `mid` is the active
/// collection as the poll pass left it — every item advanced by one
/// iteration step — and the sweep then kept its not-yet-complete items
/// active, in order, and appended its complete items to the archive, in
/// order.
pub open spec fn iteration_outcome(pre: WorkEngine, post: WorkEngine, mid: Seq<WorkItem>) -> bool {
    &&& mid.len() == pre.active().len()
    &&& forall|i: int| 0 <= i < mid.len() ==> iteration_step(pre.active()[i], #[trigger] mid[i])
    &&& post.active() == not_complete_items(mid)
    &&& post.completed() == pre.completed() + complete_items(mid)
}

/// A failed dispatch pass stopped at some position `k`: the `NotStarted`
/// items before `k` were started, the item at `k` is the one whose `execute`
/// failed and it keeps its `NotStarted` status, and no later item was
/// visited.
pub open spec fn dispatch_failed_at(pre: Seq<WorkItem>, post: Seq<WorkItem>, k: int) -> bool {
    &&& 0 <= k < pre.len()
    &&& pre[k].spec_status() == WorkItemStatus::NotStarted
    &&& forall|i: int| 0 <= i < k ==> dispatch_step(pre[i], #[trigger] post[i])
    &&& forall|i: int| k <= i < pre.len() ==> #[trigger] post[i] == pre[i]
}

/// A failed dispatch pass stopped at some position.
pub open spec fn dispatch_failed(pre: Seq<WorkItem>, post: Seq<WorkItem>) -> bool {
    exists|k: int| #[trigger] dispatch_failed_at(pre, post, k)
}

/// When a pass changes at most the statuses of active items, never to
/// `Error`, the engine's invariant is preserved.
proof fn lemma_wf_preserved_pointwise(pre: WorkEngine, post: WorkEngine)
    requires
        pre.wf(),
        post.counter() == pre.counter(),
        post.completed() == pre.completed(),
        post.active().len() == pre.active().len(),
        forall|i: int|
            0 <= i < pre.active().len() ==> (#[trigger] post.active()[i]).spec_id()
                == pre.active()[i].spec_id(),
        forall|i: int|
            0 <= i < pre.active().len() ==> !((#[trigger] post.active()[i]).spec_status()
                matches WorkItemStatus::Error(_)),
    ensures
        post.wf(),
{
    let all_pre = pre.all_items();
    let all_post = post.all_items();
    let n = pre.active().len() as int;
    assert forall|i: int| 0 <= i < all_post.len() implies (#[trigger] all_post[i]).spec_id()
        == all_pre[i].spec_id() by {
        if i < n {
            assert(all_post[i] == post.active()[i]);
            assert(all_pre[i] == pre.active()[i]);
        } else {
            assert(all_post[i] == post.completed()[i - n]);
            assert(all_pre[i] == pre.completed()[i - n]);
        }
    }
    assert(ids_of(all_post) =~= ids_of(all_pre));
    assert forall|i: int| 0 <= i < all_post.len() implies (#[trigger] all_post[i]).spec_id()
        < post.counter() by {
        assert(all_pre[i].spec_id() < pre.counter());
    }
    assert forall|i: int| 0 <= i < all_post.len() implies !((
    #[trigger] all_post[i]).spec_status() matches WorkItemStatus::Error(_)) by {
        if i >= n {
            assert(all_post[i] == post.completed()[i - n]);
            assert(all_pre[i] == pre.completed()[i - n]);
            assert(!(all_pre[i].spec_status() matches WorkItemStatus::Error(_)));
        }
    }
    assert forall|i: int| 0 <= i < post.completed().len() implies (
    #[trigger] post.completed()[i]).spec_status() == WorkItemStatus::Complete by {
        assert(pre.completed()[i].spec_status() == WorkItemStatus::Complete);
    }
}

/// After an append of a fresh item carrying the old counter as its id, the
/// engine's invariant still holds.
proof fn lemma_wf_after_add(pre: WorkEngine, post: WorkEngine, item: WorkItem)
    requires
        pre.wf(),
        pre.counter() < u64::MAX,
        post.counter() == pre.counter() + 1,
        post.completed() == pre.completed(),
        post.active() == pre.active().push(item),
        item.spec_id() == pre.counter(),
        item.spec_status() == WorkItemStatus::NotStarted,
    ensures
        post.wf(),
{
    let all_pre = pre.all_items();
    let all_post = post.all_items();
    let n = pre.active().len() as int;
    assert(all_post =~= all_pre.insert(n, item));
    assert forall|i: int| 0 <= i < all_post.len() implies all_post[i] == (if i < n {
        all_pre[i]
    } else if i == n {
        item
    } else {
        all_pre[i - 1]
    }) by {}
    assert forall|i: int| 0 <= i < all_post.len() implies (#[trigger] all_post[i]).spec_id()
        < post.counter() by {
        if i < n {
            assert(all_pre[i].spec_id() < pre.counter());
        } else if i > n {
            assert(all_pre[i - 1].spec_id() < pre.counter());
        }
    }
    assert forall|i: int| 0 <= i < all_post.len() implies !((
    #[trigger] all_post[i]).spec_status() matches WorkItemStatus::Error(_)) by {
        if i < n {
            assert(!(all_pre[i].spec_status() matches WorkItemStatus::Error(_)));
        } else if i > n {
            assert(!(all_pre[i - 1].spec_status() matches WorkItemStatus::Error(_)));
        }
    }
    assert forall|i: int| 0 <= i < post.completed().len() implies (
    #[trigger] post.completed()[i]).spec_status() == WorkItemStatus::Complete by {}
    let ids_pre = ids_of(all_pre);
    let ids_post = ids_of(all_post);
    assert forall|i: int, j: int|
        0 <= i < ids_post.len() && 0 <= j < ids_post.len() && i != j implies ids_post[i]
        != ids_post[j] by {
        assert(ids_post[i] == all_post[i].spec_id());
        assert(ids_post[j] == all_post[j].spec_id());
        if i != n && j != n {
            let pi: int = if i < n {
                i
            } else {
                i - 1
            };
            let pj: int = if j < n {
                j
            } else {
                j - 1
            };
            assert(ids_pre[pi] == all_pre[pi].spec_id());
            assert(ids_pre[pj] == all_pre[pj].spec_id());
            assert(ids_pre[pi] != ids_pre[pj]);
        } else if i == n {
            let pj: int = if j < n {
                j
            } else {
                j - 1
            };
            assert(all_pre[pj].spec_id() < pre.counter());
        } else {
            let pi: int = if i < n {
                i
            } else {
                i - 1
            };
            assert(all_pre[pi].spec_id() < pre.counter());
        }
    }
}

/// Where a lifecycle status stands along the forward path
/// `NotStarted -> InProgress -> Complete`.
pub open spec fn status_rank(s: WorkItemStatus) -> int {
    match s {
        WorkItemStatus::NotStarted => 0,
        WorkItemStatus::InProgress => 1,
        WorkItemStatus::Complete => 2,
        WorkItemStatus::Error(_) => 3,
    }
}

/// Id uniqueness: in a well-formed engine no id appears twice across the
/// active and completed collections combined, and every id is below the
/// counter. Together with the contract of `add` — which returns the current
/// counter and increments it — this means the ids handed out by successive
/// `add` calls are consecutive, starting at the counter `new` set to zero,
/// and are never reused.
pub proof fn lemma_id_uniqueness(engine: WorkEngine, i: int, j: int)
    requires
        engine.wf(),
        0 <= i < engine.all_items().len(),
        0 <= j < engine.all_items().len(),
        i != j,
    ensures
        engine.all_items()[i].spec_id() != engine.all_items()[j].spec_id(),
        engine.all_items()[i].spec_id() < engine.counter(),
{
    assert(ids_of(engine.all_items())[i] == engine.all_items()[i].spec_id());
    assert(ids_of(engine.all_items())[j] == engine.all_items()[j].spec_id());
}

/// Lifecycle monotonicity: every per-item transition the engine performs —
/// a dispatch visit, a poll visit, or a whole iteration before the sweep —
/// moves the item's status forward along
/// `NotStarted -> InProgress -> Complete`, never backward, and never
/// assigns the `Error` value to an item that did not already carry it. The
/// remaining half of the property — that no `Complete` item stays in the
/// active collection once a sweep has run — is stated by the contract of
/// `move_completed_work_items`.
pub proof fn lemma_lifecycle_monotonic(pre: WorkItem, post: WorkItem)
    requires
        dispatch_step(pre, post) || poll_step(pre, post) || iteration_step(pre, post),
    ensures
        status_rank(pre.spec_status()) <= status_rank(post.spec_status()),
        !(pre.spec_status() matches WorkItemStatus::Error(_)) ==> status_rank(
            post.spec_status(),
        ) <= 2,
{
}

} // verus!
