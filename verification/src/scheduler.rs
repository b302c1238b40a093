//! The admission-controlled scheduler.
//!
//! The scheduler walks the list of pending files with a cursor. It hands out
//! the first files up to its parallelism budget, and one more file each time
//! a task in flight reports back. When no file is left and no task is in
//! flight it closes the channel on which the outcomes arrive.

use crate::error::{StrErr, NO_REQUESTS_ALLOWED};
use crate::record::name_views;
use vstd::multiset::*;
use vstd::prelude::*;
use vstd::seq_lib::*;
use vstd::string::*;

verus! {

/// Where a run stands.
#[derive(Debug, Clone, Copy, PartialEq, Eq, Structural)]
pub enum Phase {
    /// Nothing has been handed out yet.
    Ready,
    /// Tasks are in flight.
    Running,
    /// Every pending file has reported back; the channel is closed.
    Closed,
}

/// What the scheduler answers to a reported outcome.
#[derive(Debug, PartialEq, Eq)]
pub enum Next {
    /// The slot that was freed goes to this file.
    Dispatch(String),
    /// No file is left to hand out, but tasks are still in flight.
    Wait,
    /// That was the last task: close the channel.
    Close,
    /// No task for this file is in flight. Nothing has changed.
    Rejected,
}

/// A [`Next`] as a mathematical value.
pub enum NextView {
    Dispatch(Seq<char>),
    Wait,
    Close,
    Rejected,
}

impl View for Next {
    type V = NextView;

    open spec fn view(&self) -> NextView {
        match self {
            Next::Dispatch(name) => NextView::Dispatch(name@),
            Next::Wait => NextView::Wait,
            Next::Close => NextView::Close,
            Next::Rejected => NextView::Rejected,
        }
    }
}

/// The state of a scheduler as a mathematical value.
pub struct SchedulerView {
    /// The files to fetch in this run, in the order of the list of names.
    pub pending: Seq<Seq<char>>,
    /// The largest number of tasks that may be in flight at once.
    pub budget: nat,
    /// How many of the pending files have been handed out. The files handed
    /// out are those before this position.
    pub dispatched: nat,
    /// The files whose tasks have not reported back yet.
    pub in_flight: Multiset<Seq<char>>,
    /// The files whose tasks have reported back, in the order of the reports.
    pub completed: Seq<Seq<char>>,
    pub phase: Phase,
}

impl SchedulerView {
    /// What holds of every state that a run passes through.
    pub open spec fn wf(self) -> bool {
        &&& self.budget >= 1
        &&& self.dispatched <= self.pending.len()
        &&& self.in_flight.len() + self.completed.len() == self.dispatched
        &&& self.pending.take(self.dispatched as int).to_multiset() == self.in_flight.add(
            self.completed.to_multiset(),
        )
        &&& self.in_flight.len() <= self.budget
        &&& match self.phase {
            Phase::Ready => self.dispatched == 0,
            Phase::Running => {
                &&& self.in_flight.len() > 0
                &&& self.dispatched < self.pending.len() ==> self.in_flight.len() == self.budget
            },
            Phase::Closed => self.dispatched == self.pending.len() && self.in_flight.len() == 0,
        }
    }

    /// The state before anything is handed out.
    pub open spec fn initial(pending: Seq<Seq<char>>, budget: nat) -> SchedulerView {
        SchedulerView {
            pending,
            budget,
            dispatched: 0,
            in_flight: Multiset::empty(),
            completed: Seq::empty(),
            phase: Phase::Ready,
        }
    }

    /// The files that are handed out at once when the run starts: the first
    /// pending files, as many as the budget allows.
    pub open spec fn first_batch(self) -> Seq<Seq<char>> {
        if self.budget <= self.pending.len() {
            self.pending.take(self.budget as int)
        } else {
            self.pending
        }
    }

    /// The state after the start of the run. With nothing pending the
    /// channel is closed at once.
    pub open spec fn start(self) -> SchedulerView {
        if self.phase != Phase::Ready {
            self
        } else {
            let batch = self.first_batch();
            SchedulerView {
                dispatched: batch.len(),
                in_flight: batch.to_multiset(),
                phase: if batch.len() == 0 {
                    Phase::Closed
                } else {
                    Phase::Running
                },
                ..self
            }
        }
    }

    /// Whether a report for `name` belongs to a task in flight.
    pub open spec fn accepts(self, name: Seq<char>) -> bool {
        self.phase == Phase::Running && self.in_flight.contains(name)
    }

    /// The state after a task has reported back for `name`.
    pub open spec fn complete(self, name: Seq<char>) -> SchedulerView {
        if !self.accepts(name) {
            self
        } else if self.dispatched < self.pending.len() {
            SchedulerView {
                dispatched: self.dispatched + 1,
                in_flight: self.in_flight.remove(name).insert(
                    self.pending[self.dispatched as int],
                ),
                completed: self.completed.push(name),
                ..self
            }
        } else {
            SchedulerView {
                in_flight: self.in_flight.remove(name),
                completed: self.completed.push(name),
                phase: if self.in_flight.len() == 1 {
                    Phase::Closed
                } else {
                    Phase::Running
                },
                ..self
            }
        }
    }

    /// What the scheduler answers when a task reports back for `name`.
    pub open spec fn reply(self, name: Seq<char>) -> NextView {
        if !self.accepts(name) {
            NextView::Rejected
        } else if self.dispatched < self.pending.len() {
            NextView::Dispatch(self.pending[self.dispatched as int])
        } else if self.in_flight.len() == 1 {
            NextView::Close
        } else {
            NextView::Wait
        }
    }

    /// The state after the tasks have reported back for `reports`, one
    /// after the other.
    pub open spec fn complete_all(self, reports: Seq<Seq<char>>) -> SchedulerView
        decreases reports.len(),
    {
        if reports.len() == 0 {
            self
        } else {
            self.complete_all(reports.drop_last()).complete(reports.last())
        }
    }

    /// The files that the scheduler hands out in answer to `reports`, one
    /// after the other, in the order in which it does so.
    pub open spec fn handed_out_for(self, reports: Seq<Seq<char>>) -> Seq<Seq<char>>
        decreases reports.len(),
    {
        if reports.len() == 0 {
            Seq::empty()
        } else {
            let before = self.handed_out_for(reports.drop_last());
            match self.complete_all(reports.drop_last()).reply(reports.last()) {
                NextView::Dispatch(name) => before.push(name),
                _ => before,
            }
        }
    }

    /// The state of a run over `pending` with `budget` slots after it has
    /// started and then received `reports`.
    pub open spec fn run(pending: Seq<Seq<char>>, budget: nat, reports: Seq<Seq<char>>)
        -> SchedulerView {
        SchedulerView::initial(pending, budget).start().complete_all(reports)
    }
}

/// The scheduler of one run.
pub struct Scheduler {
    pending: Vec<String>,
    budget: usize,
    dispatched: usize,
    in_flight: Vec<String>,
    completed: usize,
    phase: Phase,
    history: Ghost<Seq<Seq<char>>>,
}

impl View for Scheduler {
    type V = SchedulerView;

    closed spec fn view(&self) -> SchedulerView {
        SchedulerView {
            pending: name_views(self.pending@),
            budget: self.budget as nat,
            dispatched: self.dispatched as nat,
            in_flight: name_views(self.in_flight@).to_multiset(),
            completed: self.history@,
            phase: self.phase,
        }
    }
}

impl Scheduler {
    /// The invariant of the type: the state is one that a run can be in, and
    /// the counter of reports agrees with the reports.
    pub closed spec fn wf(&self) -> bool {
        &&& self@.wf()
        &&& self.completed == self.history@.len()
    }

    /// The state of a scheduler is one that a run can be in.
    pub proof fn lemma_view_wf(&self)
        requires
            self.wf(),
        ensures
            self@.wf(),
    {
    }

    /// A scheduler for the files in `pending` that keeps at most `budget`
    /// tasks in flight. A budget of zero is refused.
    pub fn new(pending: Vec<String>, budget: usize) -> (made: Result<Scheduler, StrErr>)
        ensures
            made is Ok <==> budget >= 1,
            made matches Ok(scheduler) ==> {
                &&& scheduler.wf()
                &&& scheduler@ == SchedulerView::initial(name_views(pending@), budget as nat)
            },
            made matches Err(err) ==> err@ == NO_REQUESTS_ALLOWED@,
    {
        if budget == 0 {
            return Err(StrErr::new(NO_REQUESTS_ALLOWED));
        }
        proof {
            lemma_initial_wf(name_views(pending@), budget as nat);
            assert(name_views(Seq::<String>::empty()) =~= Seq::<Seq<char>>::empty());
            Seq::<Seq<char>>::empty().to_multiset_ensures();
            assert(Seq::<Seq<char>>::empty().to_multiset() =~= Multiset::<Seq<char>>::empty()) by {
                lemma_multiset_empty_len(Seq::<Seq<char>>::empty().to_multiset());
            }
        }
        Ok(
            Scheduler {
                pending,
                budget,
                dispatched: 0,
                in_flight: Vec::new(),
                completed: 0,
                phase: Phase::Ready,
                history: Ghost(Seq::empty()),
            },
        )
    }

    /// Starts the run: hands out the first pending files, as many as the
    /// budget allows, in the order of the list. With nothing pending the
    /// channel is closed at once. On a run that has started already nothing
    /// is handed out and nothing changes.
    pub fn start(&mut self) -> (batch: Vec<String>)
        requires
            old(self).wf(),
        ensures
            final(self).wf(),
            final(self)@ == old(self)@.start(),
            name_views(batch@) == if old(self)@.phase == Phase::Ready {
                old(self)@.first_batch()
            } else {
                Seq::empty()
            },
    {
        let mut batch: Vec<String> = Vec::new();
        if self.phase != Phase::Ready {
            assert(name_views(batch@) =~= Seq::<Seq<char>>::empty());
            return batch;
        }
        proof {
            broadcast use group_multiset_axioms;

            name_views(self.in_flight@).to_multiset_ensures();
            self.history@.to_multiset_ensures();
            assert(name_views(self.in_flight@) =~= Seq::<Seq<char>>::empty());
            assert(name_views(batch@) =~= Seq::<Seq<char>>::empty());
        }
        let ghost names = name_views(self.pending@);
        while self.dispatched < self.pending.len() && self.in_flight.len() < self.budget
            invariant
                self.pending == old(self).pending,
                self.budget == old(self).budget,
                self.completed == old(self).completed,
                self.history == old(self).history,
                self.phase == Phase::Ready,
                names == name_views(self.pending@),
                self.dispatched <= self.pending.len(),
                self.dispatched <= self.budget,
                self.in_flight.len() == self.dispatched,
                batch.len() == self.dispatched,
                name_views(self.in_flight@) == names.take(self.dispatched as int),
                name_views(batch@) == names.take(self.dispatched as int),
            decreases self.pending.len() - self.dispatched,
        {
            let name = self.pending[self.dispatched].clone();
            let copy = name.clone();
            proof {
                let k = self.dispatched as int;
                assert(name_views(self.in_flight@.push(name)) =~= names.take(k + 1));
                assert(name_views(batch@.push(copy)) =~= names.take(k + 1));
            }
            self.in_flight.push(name);
            batch.push(copy);
            self.dispatched = self.dispatched + 1;
        }
        self.phase = if self.dispatched == 0 {
            Phase::Closed
        } else {
            Phase::Running
        };
        proof {
            lemma_start_wf(old(self)@);
            assert(names.take(self.dispatched as int) =~= old(self)@.first_batch());
        }
        batch
    }

    /// Takes the report of a task for the file `name`.
    ///
    /// Where such a task is in flight its slot is freed. The slot goes to the
    /// next pending file if one is left; otherwise the scheduler waits for the
    /// tasks still in flight or, after the last of them, closes the channel.
    /// A report for a file without a task in flight is rejected.
    pub fn on_completion(&mut self, name: &str) -> (next: Next)
        requires
            old(self).wf(),
        ensures
            final(self).wf(),
            final(self)@ == old(self)@.complete(name@),
            next@ == old(self)@.reply(name@),
    {
        if self.phase != Phase::Running {
            return Next::Rejected;
        }
        let ghost flying = name_views(self.in_flight@);
        proof {
            flying.to_multiset_ensures();
        }
        let wanted = String::from_str(name);
        let mut at: usize = 0;
        while at < self.in_flight.len() && self.in_flight[at] != wanted
            invariant
                self.in_flight == old(self).in_flight,
                at <= self.in_flight.len(),
                flying == name_views(self.in_flight@),
                wanted@ == name@,
                forall|j: int| 0 <= j < at ==> flying[j] != name@,
            decreases self.in_flight.len() - at,
        {
            at = at + 1;
        }
        if at == self.in_flight.len() {
            assert(!flying.contains(name@));
            return Next::Rejected;
        }
        assert(flying[at as int] == name@);
        assert(flying.contains(name@));
        proof {
            lemma_complete_wf(old(self)@, name@);
            self.history@.to_multiset_ensures();
            broadcast use group_multiset_axioms;

        }
        self.in_flight.remove(at);
        assert(name_views(self.in_flight@) =~= flying.remove(at as int));
        self.completed = self.completed + 1;
        self.history = Ghost(self.history@.push(name@));
        if self.dispatched < self.pending.len() {
            let fresh = self.pending[self.dispatched].clone();
            let copy = fresh.clone();
            proof {
                name_views(self.in_flight@).to_multiset_ensures();
                assert(name_views(self.in_flight@.push(fresh)) =~= name_views(
                    self.in_flight@,
                ).push(fresh@));
            }
            self.in_flight.push(fresh);
            self.dispatched = self.dispatched + 1;
            Next::Dispatch(copy)
        } else if self.in_flight.len() == 0 {
            self.phase = Phase::Closed;
            Next::Close
        } else {
            Next::Wait
        }
    }

    /// The budget of tasks in flight.
    pub fn budget(&self) -> (budget: usize)
        ensures
            budget == self@.budget,
    {
        self.budget
    }

    /// The number of files of this run.
    pub fn pending_count(&self) -> (count: usize)
        ensures
            count == self@.pending.len(),
    {
        self.pending.len()
    }

    /// The number of files handed out so far.
    pub fn dispatched_count(&self) -> (count: usize)
        ensures
            count == self@.dispatched,
    {
        self.dispatched
    }

    /// The number of tasks in flight, which the budget bounds.
    pub fn active_count(&self) -> (count: usize)
        requires
            self.wf(),
        ensures
            count == self@.in_flight.len(),
            count <= self@.budget,
    {
        proof {
            name_views(self.in_flight@).to_multiset_ensures();
        }
        self.in_flight.len()
    }

    /// The number of reports accepted so far.
    pub fn completed_count(&self) -> (count: usize)
        requires
            self.wf(),
        ensures
            count == self@.completed.len(),
    {
        self.completed
    }

    pub fn phase(&self) -> (phase: Phase)
        ensures
            phase == self@.phase,
    {
        self.phase
    }

    /// Whether the channel is closed: the run is over.
    pub fn is_closed(&self) -> (closed: bool)
        ensures
            closed == (self@.phase == Phase::Closed),
    {
        self.phase == Phase::Closed
    }
}

/// The first state of a run is well-formed.
pub proof fn lemma_initial_wf(pending: Seq<Seq<char>>, budget: nat)
    requires
        budget >= 1,
    ensures
        SchedulerView::initial(pending, budget).wf(),
{
    broadcast use group_multiset_axioms;

    let s = SchedulerView::initial(pending, budget);
    assert(s.pending.take(0) =~= Seq::<Seq<char>>::empty());
    assert(Seq::<Seq<char>>::empty().to_multiset() =~= Multiset::<Seq<char>>::empty()) by {
        Seq::<Seq<char>>::empty().to_multiset_ensures();
    }
    assert(s.in_flight.add(s.completed.to_multiset()) =~= Multiset::<Seq<char>>::empty());
}

/// Starting the run keeps the state well-formed.
pub proof fn lemma_start_wf(s: SchedulerView)
    requires
        s.wf(),
    ensures
        s.start().wf(),
{
    broadcast use group_multiset_axioms;

    if s.phase == Phase::Ready {
        let batch = s.first_batch();
        let t = s.start();
        batch.to_multiset_ensures();
        s.completed.to_multiset_ensures();
        assert(s.completed.len() == 0);
        assert(s.completed.to_multiset() =~= Multiset::<Seq<char>>::empty());
        assert(t.pending.take(t.dispatched as int) =~= batch);
        assert(batch.to_multiset() =~= t.in_flight.add(t.completed.to_multiset()));
    }
}

/// A report keeps the state well-formed.
pub proof fn lemma_complete_wf(s: SchedulerView, name: Seq<char>)
    requires
        s.wf(),
    ensures
        s.complete(name).wf(),
{
    broadcast use group_multiset_axioms;

    if s.accepts(name) {
        let t = s.complete(name);
        let done = s.completed.to_multiset();
        s.completed.to_multiset_ensures();
        assert(t.completed.to_multiset() =~= done.insert(name));
        assert(Multiset::singleton(name).subset_of(s.in_flight));
        if s.dispatched < s.pending.len() {
            let fresh = s.pending[s.dispatched as int];
            let before = s.pending.take(s.dispatched as int);
            before.to_multiset_ensures();
            assert(s.pending.take(t.dispatched as int) =~= before.push(fresh));
            assert(before.push(fresh).to_multiset() =~= before.to_multiset().insert(fresh));
            assert(before.to_multiset().insert(fresh) =~= t.in_flight.add(
                t.completed.to_multiset(),
            ));
        } else {
            assert(s.pending.take(s.dispatched as int).to_multiset() =~= t.in_flight.add(
                t.completed.to_multiset(),
            ));
        }
    }
}

/// Any number of reports keeps the state well-formed.
pub proof fn lemma_complete_all_wf(s: SchedulerView, reports: Seq<Seq<char>>)
    requires
        s.wf(),
    ensures
        s.complete_all(reports).wf(),
        s.complete_all(reports).pending == s.pending,
        s.complete_all(reports).budget == s.budget,
    decreases reports.len(),
{
    if reports.len() > 0 {
        lemma_complete_all_wf(s, reports.drop_last());
        lemma_complete_wf(s.complete_all(reports.drop_last()), reports.last());
    }
}

/// Bounded concurrency: however the tasks of a run report back, and
/// whatever else is reported to the scheduler, at no moment are more tasks
/// in flight than the budget allows. As long as files are left to hand out,
/// the tasks in flight are exactly as many as the budget.
pub proof fn lemma_bounded_concurrency(
    pending: Seq<Seq<char>>,
    budget: nat,
    reports: Seq<Seq<char>>,
)
    requires
        budget >= 1,
    ensures
        SchedulerView::run(pending, budget, reports).in_flight.len() <= budget,
        SchedulerView::run(pending, budget, reports).dispatched < pending.len()
            ==> SchedulerView::run(pending, budget, reports).in_flight.len() == budget,
{
    lemma_initial_wf(pending, budget);
    lemma_start_wf(SchedulerView::initial(pending, budget));
    lemma_complete_all_wf(SchedulerView::initial(pending, budget).start(), reports);
    let first = SchedulerView::initial(pending, budget).start();
    lemma_started_stays_started(first, reports);
}

/// A run that has started does not go back to where nothing is handed out.
pub proof fn lemma_started_stays_started(s: SchedulerView, reports: Seq<Seq<char>>)
    requires
        s.phase != Phase::Ready,
    ensures
        s.complete_all(reports).phase != Phase::Ready,
    decreases reports.len(),
{
    if reports.len() > 0 {
        lemma_started_stays_started(s, reports.drop_last());
    }
}

/// The order of the list: the files of the first batch and the files
/// handed out afterwards, one for each slot that was freed, are together the
/// pending files up to the cursor. No file is passed over, none is handed
/// out twice, and none before a file that stands earlier in the list.
pub proof fn lemma_handed_out_in_list_order(
    pending: Seq<Seq<char>>,
    budget: nat,
    reports: Seq<Seq<char>>,
)
    requires
        budget >= 1,
    ensures
        ({
            let first = SchedulerView::initial(pending, budget);
            first.first_batch() + first.start().handed_out_for(reports) == pending.take(
                SchedulerView::run(pending, budget, reports).dispatched as int,
            )
        }),
    decreases reports.len(),
{
    let first = SchedulerView::initial(pending, budget);
    lemma_initial_wf(pending, budget);
    lemma_start_wf(first);
    if reports.len() == 0 {
        assert(first.first_batch() + Seq::<Seq<char>>::empty() =~= first.first_batch());
        assert(first.first_batch() =~= pending.take(first.start().dispatched as int));
    } else {
        let earlier = reports.drop_last();
        lemma_handed_out_in_list_order(pending, budget, earlier);
        lemma_complete_all_wf(first.start(), earlier);
        let before = first.start().complete_all(earlier);
        let cursor = before.dispatched as int;
        match before.reply(reports.last()) {
            NextView::Dispatch(name) => {
                assert(pending.take(cursor + 1) =~= pending.take(cursor).push(name));
                assert(first.first_batch() + first.start().handed_out_for(earlier).push(name)
                    =~= (first.first_batch() + first.start().handed_out_for(earlier)).push(name));
            },
            _ => {},
        }
    }
}

/// One task for each file: where no file is pending twice, no file has two
/// tasks in flight, and none that has reported is in flight again.
pub proof fn lemma_one_task_for_each_file(s: SchedulerView, name: Seq<char>)
    requires
        s.wf(),
        s.pending.no_duplicates(),
    ensures
        s.in_flight.count(name) + s.completed.to_multiset().count(name) <= 1,
{
    broadcast use group_multiset_axioms;

    let handed_out = s.pending.take(s.dispatched as int);
    assert(handed_out.no_duplicates());
    handed_out.lemma_multiset_has_no_duplicates();
    let all = s.in_flight.add(s.completed.to_multiset());
    assert(all.count(name) == s.in_flight.count(name) + s.completed.to_multiset().count(name));
    if all.count(name) > 0 {
        assert(handed_out.to_multiset().contains(name));
    }
}

/// The channel is closed exactly when every pending file has reported: a
/// run that has started neither stops before that nor waits after it.
pub proof fn lemma_closed_when_all_reported(
    pending: Seq<Seq<char>>,
    budget: nat,
    reports: Seq<Seq<char>>,
)
    requires
        budget >= 1,
    ensures
        SchedulerView::run(pending, budget, reports).phase == Phase::Closed
            <==> SchedulerView::run(pending, budget, reports).completed.len() == pending.len(),
{
    lemma_initial_wf(pending, budget);
    lemma_start_wf(SchedulerView::initial(pending, budget));
    let first = SchedulerView::initial(pending, budget).start();
    lemma_complete_all_wf(first, reports);
    lemma_started_stays_started(first, reports);
}

/// No item loss: when a run has closed its channel, the reports it accepted
/// are the pending files, each as often as it is pending, which is once
/// where no file is listed twice.
pub proof fn lemma_no_item_loss(pending: Seq<Seq<char>>, budget: nat, reports: Seq<Seq<char>>)
    requires
        budget >= 1,
        SchedulerView::run(pending, budget, reports).phase == Phase::Closed,
    ensures
        SchedulerView::run(pending, budget, reports).completed.to_multiset()
            == pending.to_multiset(),
        SchedulerView::run(pending, budget, reports).completed.len() == pending.len(),
{
    broadcast use group_multiset_axioms;

    lemma_initial_wf(pending, budget);
    lemma_start_wf(SchedulerView::initial(pending, budget));
    lemma_complete_all_wf(SchedulerView::initial(pending, budget).start(), reports);
    let s = SchedulerView::run(pending, budget, reports);
    assert(s.pending.take(s.dispatched as int) =~= pending);
    assert(s.in_flight =~= Multiset::<Seq<char>>::empty()) by {
        lemma_multiset_empty_len(s.in_flight);
    }
    assert(s.in_flight.add(s.completed.to_multiset()) =~= s.completed.to_multiset());
}

} // verus!
