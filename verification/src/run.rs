//! One run: from the list of names and the log of earlier runs to the last
//! outcome.
//!
//! A run fetches the listed files that the log does not show as final. Each
//! outcome that arrives goes to the result sink first: it is written to the
//! log, printed, and counted by the progress bar, as far as the settings ask
//! for it. Only then is the slot of its task given to the next file.

use crate::config::RunConfig;
use crate::error::{StrErr, NO_REQUESTS_ALLOWED};
use crate::record::{name_views, EntryView, RequestRes};
use crate::resume::{
    grouped, is_final_in, is_pending_in, lemma_pending_are_listed_and_open,
    lemma_resumed_run_finishes, pending_items, pending_of, ResumeIndex,
};
use crate::scheduler::{
    lemma_complete_wf, lemma_initial_wf, lemma_start_wf, Next, Phase, Scheduler, SchedulerView,
};
use vstd::multiset::*;
use vstd::prelude::*;
use vstd::seq_lib::*;

verus! {

/// What is to be done for an outcome that has arrived, in this order: the
/// work of the result sink, then the answer of the scheduler.
#[derive(Debug, PartialEq, Eq)]
pub struct Step {
    /// The entry that arrived.
    pub entry: RequestRes,
    /// Whether the progress bar advances by one.
    pub advance_progress: bool,
    /// Whether the entry is printed.
    pub print: bool,
    /// Whether the entry is appended to the log file, as one line.
    pub append_to_log: bool,
    /// What happens to the slot of the task.
    pub next: Next,
}

/// The files that entries are for, in the same order.
pub open spec fn names_of(entries: Seq<EntryView>) -> Seq<Seq<char>> {
    entries.map_values(|entry: EntryView| entry.file_name)
}

/// The state of a run as a mathematical value.
pub struct RunView {
    pub config: RunConfig,
    /// The number of listed files.
    pub total: nat,
    pub scheduler: SchedulerView,
    /// The entries that the result sink has taken in this run, in the order
    /// in which they arrived.
    pub appended: Seq<EntryView>,
}

impl RunView {
    /// What holds of every state that a run passes through.
    pub open spec fn wf(self) -> bool {
        &&& self.scheduler.wf()
        &&& self.scheduler.budget == self.config.requests
        &&& self.scheduler.pending.len() <= self.total
        &&& names_of(self.appended) == self.scheduler.completed
    }

    /// The run on the list `names` after a log that comes to `index`.
    pub open spec fn planned(
        names: Seq<Seq<char>>,
        index: Map<Seq<char>, Seq<EntryView>>,
        config: RunConfig,
    ) -> RunView {
        RunView {
            config,
            total: names.len(),
            scheduler: SchedulerView::initial(pending_of(names, index), config.requests as nat),
            appended: Seq::empty(),
        }
    }

    /// The state after the start of the run.
    pub open spec fn start(self) -> RunView {
        RunView { scheduler: self.scheduler.start(), ..self }
    }

    /// The state after an entry has arrived. An entry for a file without a
    /// task in flight changes nothing.
    pub open spec fn receive(self, entry: EntryView) -> RunView {
        if self.scheduler.accepts(entry.file_name) {
            RunView {
                scheduler: self.scheduler.complete(entry.file_name),
                appended: self.appended.push(entry),
                ..self
            }
        } else {
            self
        }
    }

    /// The state after the entries of `arrived` have arrived, one after the
    /// other.
    pub open spec fn receive_all(self, arrived: Seq<EntryView>) -> RunView
        decreases arrived.len(),
    {
        if arrived.len() == 0 {
            self
        } else {
            self.receive_all(arrived.drop_last()).receive(arrived.last())
        }
    }

    /// The files that were already final when the run was planned.
    pub open spec fn already_final(self) -> nat {
        (self.total - self.scheduler.pending.len()) as nat
    }
}

/// The run of a list of names.
pub struct Run {
    config: RunConfig,
    total: usize,
    scheduler: Scheduler,
    appended: Ghost<Seq<EntryView>>,
}

impl View for Run {
    type V = RunView;

    closed spec fn view(&self) -> RunView {
        RunView {
            config: self.config,
            total: self.total as nat,
            scheduler: self.scheduler@,
            appended: self.appended@,
        }
    }
}

impl Run {
    /// The invariant of the type.
    pub closed spec fn wf(&self) -> bool {
        self.scheduler.wf() && self@.wf()
    }

    /// The state of a run is one that a run can be in: among the rest, the
    /// budget of its scheduler is the limit of the settings.
    pub proof fn lemma_view_wf(&self)
        requires
            self.wf(),
        ensures
            self@.wf(),
    {
    }

    /// Plans the run on the files of `names` after the log that `index`
    /// holds: it will fetch the files that are not final there. The one
    /// thing that can be wrong with the settings is a limit of zero requests.
    pub fn new(names: &Vec<String>, index: &ResumeIndex, config: RunConfig) -> (made: Result<
        Run,
        StrErr,
    >)
        requires
            index.wf(),
        ensures
            made is Ok <==> config.requests >= 1,
            made matches Ok(run) ==> {
                &&& run.wf()
                &&& run@ == RunView::planned(name_views(names@), index@, config)
            },
            made matches Err(err) ==> err@ == NO_REQUESTS_ALLOWED@,
    {
        let pending = pending_items(names, index);
        proof {
            name_views(names@).lemma_filter_len(is_pending_in(index@));
        }
        match Scheduler::new(pending, config.requests) {
            Ok(scheduler) => {
                proof {
                    scheduler.lemma_view_wf();
                    assert(names_of(Seq::<EntryView>::empty()) =~= scheduler@.completed);
                }
                Ok(Run { config, total: names.len(), scheduler, appended: Ghost(Seq::empty()) })
            },
            Err(err) => Err(err),
        }
    }

    /// The number of listed files.
    pub fn total(&self) -> (count: usize)
        ensures
            count == self@.total,
    {
        self.total
    }

    /// The number of listed files that were final before the run.
    pub fn already_final(&self) -> (count: usize)
        requires
            self.wf(),
        ensures
            count == self@.already_final(),
    {
        self.total - self.scheduler.pending_count()
    }

    /// The number of files that this run fetches.
    pub fn left_to_handle(&self) -> (count: usize)
        ensures
            count == self@.scheduler.pending.len(),
    {
        self.scheduler.pending_count()
    }

    /// The length of the progress bar, if the settings ask for one: the
    /// number of files that this run fetches.
    pub fn progress_total(&self) -> (length: Option<u64>)
        ensures
            length == if self@.config.progress_bar {
                Some(self@.scheduler.pending.len() as u64)
            } else {
                None
            },
    {
        if self.config.progress_bar {
            Some(self.scheduler.pending_count() as u64)
        } else {
            None
        }
    }

    /// The limit of parallel requests.
    pub fn budget(&self) -> (budget: usize)
        ensures
            budget == self@.config.requests,
    {
        self.config.requests
    }

    /// The number of files handed out so far.
    pub fn dispatched_count(&self) -> (count: usize)
        ensures
            count == self@.scheduler.dispatched,
    {
        self.scheduler.dispatched_count()
    }

    /// The number of tasks in flight, which the limit of parallel requests
    /// bounds.
    pub fn active_count(&self) -> (count: usize)
        requires
            self.wf(),
        ensures
            count == self@.scheduler.in_flight.len(),
            count <= self@.config.requests,
    {
        proof {
            self.scheduler.lemma_view_wf();
        }
        self.scheduler.active_count()
    }

    /// The number of entries that the result sink has taken.
    pub fn completed_count(&self) -> (count: usize)
        requires
            self.wf(),
        ensures
            count == self@.appended.len(),
    {
        assert(names_of(self@.appended).len() == self@.appended.len());
        self.scheduler.completed_count()
    }

    /// Whether the channel is closed: every file of the run has its entry.
    pub fn is_finished(&self) -> (finished: bool)
        ensures
            finished == (self@.scheduler.phase == Phase::Closed),
    {
        self.scheduler.is_closed()
    }

    /// Starts the run and names the files to fetch at once: the first
    /// pending files, as many as the limit of parallel requests allows.
    pub fn start(&mut self) -> (batch: Vec<String>)
        requires
            old(self).wf(),
        ensures
            final(self).wf(),
            final(self)@ == old(self)@.start(),
            name_views(batch@) == if old(self)@.scheduler.phase == Phase::Ready {
                old(self)@.scheduler.first_batch()
            } else {
                Seq::empty()
            },
    {
        let batch = self.scheduler.start();
        proof {
            self.scheduler.lemma_view_wf();
        }
        batch
    }

    /// Takes an entry that has arrived from a task.
    ///
    /// If a task for the entry's file is in flight, the result sink gets the
    /// entry, as far as the settings ask for it, and the scheduler decides
    /// on the slot of the task. Otherwise nothing is to be done and nothing
    /// changes.
    pub fn on_outcome(&mut self, entry: RequestRes) -> (step: Step)
        requires
            old(self).wf(),
        ensures
            final(self).wf(),
            final(self)@ == old(self)@.receive(entry@),
            step.entry == entry,
            step.next@ == old(self)@.scheduler.reply(entry@.file_name),
            step.advance_progress == (old(self)@.config.progress_bar && !(step.next is Rejected)),
            step.print == (old(self)@.config.log_to_stdout && !(step.next is Rejected)),
            step.append_to_log == (old(self)@.config.log_to_file && !(step.next is Rejected)),
    {
        let next = self.scheduler.on_completion(entry.file_name.as_str());
        let accepted = match next {
            Next::Rejected => false,
            _ => true,
        };
        proof {
            self.scheduler.lemma_view_wf();
            if accepted {
                assert(names_of(self.appended@.push(entry@)) =~= names_of(self.appended@).push(
                    entry@.file_name,
                ));
                self.appended@ = self.appended@.push(entry@);
            }
        }
        Step {
            entry,
            advance_progress: accepted && self.config.progress_bar,
            print: accepted && self.config.log_to_stdout,
            append_to_log: accepted && self.config.log_to_file,
            next,
        }
    }
}

/// Starting a run keeps its state well-formed.
pub proof fn lemma_start_wf_of_run(run: RunView)
    requires
        run.wf(),
    ensures
        run.start().wf(),
        run.start().scheduler.pending == run.scheduler.pending,
{
    lemma_start_wf(run.scheduler);
}

/// Whatever arrives, the state of a run stays well-formed, and the run
/// goes on fetching the same files at the same limit.
pub proof fn lemma_receive_all_wf(run: RunView, arrived: Seq<EntryView>)
    requires
        run.wf(),
    ensures
        run.receive_all(arrived).wf(),
        run.receive_all(arrived).scheduler.pending == run.scheduler.pending,
        run.receive_all(arrived).config == run.config,
    decreases arrived.len(),
{
    if arrived.len() > 0 {
        let before = run.receive_all(arrived.drop_last());
        lemma_receive_all_wf(run, arrived.drop_last());
        lemma_complete_wf(before.scheduler, arrived.last().file_name);
        if before.scheduler.accepts(arrived.last().file_name) {
            assert(names_of(before.appended.push(arrived.last())) =~= names_of(
                before.appended,
            ).push(arrived.last().file_name));
        }
    }
}

/// The entries that a run takes are for files that it fetches: listed
/// files that were not final before the run. A file that was final is not
/// fetched again.
pub proof fn lemma_final_files_are_left_alone(
    names: Seq<Seq<char>>,
    prior: Seq<EntryView>,
    config: RunConfig,
    arrived: Seq<EntryView>,
    k: int,
)
    requires
        config.requests >= 1,
        0 <= k < RunView::planned(names, grouped(prior), config).start().receive_all(
            arrived,
        ).appended.len(),
    ensures
        ({
            let run = RunView::planned(names, grouped(prior), config).start().receive_all(arrived);
            &&& names.contains(run.appended[k].file_name)
            &&& !is_final_in(grouped(prior), run.appended[k].file_name)
        }),
{
    broadcast use group_multiset_axioms;

    let planned = RunView::planned(names, grouped(prior), config);
    lemma_initial_wf(pending_of(names, grouped(prior)), config.requests as nat);
    names.lemma_filter_len(is_pending_in(grouped(prior)));
    assert(names_of(planned.appended) =~= planned.scheduler.completed);
    lemma_start_wf_of_run(planned);
    lemma_receive_all_wf(planned.start(), arrived);
    let run = planned.start().receive_all(arrived);
    let name = run.appended[k].file_name;
    let pending = run.scheduler.pending;
    let handed_out = pending.take(run.scheduler.dispatched as int);
    assert(names_of(run.appended)[k] == name);
    assert(run.scheduler.completed.contains(name));
    run.scheduler.completed.to_multiset_ensures();
    handed_out.to_multiset_ensures();
    assert(run.scheduler.completed.to_multiset().count(name) > 0);
    assert(handed_out.to_multiset().count(name) > 0);
    assert(handed_out.contains(name));
    let i = choose|i: int| 0 <= i < handed_out.len() && handed_out[i] == name;
    assert(pending[i] == name);
    assert(pending.contains(name));
    lemma_pending_are_listed_and_open(names, grouped(prior), name);
}

/// No item loss: when a run has closed its channel, the result sink has
/// taken exactly one entry for each file that was pending when the run
/// began, and none besides. A file that is listed twice, and so pending
/// twice, has two.
pub proof fn lemma_one_entry_for_each_pending_file(
    names: Seq<Seq<char>>,
    prior: Seq<EntryView>,
    config: RunConfig,
    arrived: Seq<EntryView>,
)
    requires
        config.requests >= 1,
        RunView::planned(names, grouped(prior), config).start().receive_all(
            arrived,
        ).scheduler.phase == Phase::Closed,
    ensures
        ({
            let run = RunView::planned(names, grouped(prior), config).start().receive_all(arrived);
            let pending = pending_of(names, grouped(prior));
            &&& names_of(run.appended).to_multiset() == pending.to_multiset()
            &&& run.appended.len() == pending.len()
        }),
{
    broadcast use group_multiset_axioms;

    let planned = RunView::planned(names, grouped(prior), config);
    let pending = pending_of(names, grouped(prior));
    lemma_initial_wf(pending, config.requests as nat);
    names.lemma_filter_len(is_pending_in(grouped(prior)));
    assert(names_of(planned.appended) =~= planned.scheduler.completed);
    lemma_start_wf_of_run(planned);
    lemma_receive_all_wf(planned.start(), arrived);
    let run = planned.start().receive_all(arrived);
    assert(run.scheduler.pending == pending);
    assert(pending.take(run.scheduler.dispatched as int) =~= pending);
    assert(run.scheduler.in_flight =~= Multiset::<Seq<char>>::empty()) by {
        lemma_multiset_empty_len(run.scheduler.in_flight);
    }
    assert(pending.to_multiset() =~= run.scheduler.completed.to_multiset());
    assert(names_of(run.appended).len() == run.appended.len());
}

/// Resumability: take any log of earlier runs, and run the list against it
/// until the channel is closed. If no fetch of this run ends in a failure to
/// get a response, then every listed file is final in the log that the run
/// leaves behind, and a further run on that log has nothing to fetch.
pub proof fn lemma_resumability(
    names: Seq<Seq<char>>,
    prior: Seq<EntryView>,
    config: RunConfig,
    arrived: Seq<EntryView>,
)
    requires
        config.requests >= 1,
        RunView::planned(names, grouped(prior), config).start().receive_all(
            arrived,
        ).scheduler.phase == Phase::Closed,
        forall|k: int|
            0 <= k < RunView::planned(names, grouped(prior), config).start().receive_all(
                arrived,
            ).appended.len() ==> (#[trigger] RunView::planned(
                names,
                grouped(prior),
                config,
            ).start().receive_all(arrived).appended[k]).is_final(),
    ensures
        ({
            let run = RunView::planned(names, grouped(prior), config).start().receive_all(arrived);
            let log = prior + run.appended;
            &&& forall|i: int| 0 <= i < names.len() ==> is_final_in(grouped(log), #[trigger] names[i])
            &&& pending_of(names, grouped(log)) == Seq::<Seq<char>>::empty()
            &&& RunView::planned(names, grouped(log), config).start().scheduler.phase
                == Phase::Closed
        }),
{
    let run = RunView::planned(names, grouped(prior), config).start().receive_all(arrived);
    let pending = pending_of(names, grouped(prior));
    let taken = names_of(run.appended);
    lemma_one_entry_for_each_pending_file(names, prior, config, arrived);
    assert forall|name: Seq<char>| #[trigger] pending.contains(name) implies exists|k: int|
        0 <= k < run.appended.len() && (#[trigger] run.appended[k]).file_name == name by {
        pending.to_multiset_ensures();
        taken.to_multiset_ensures();
        assert(pending.to_multiset().count(name) > 0);
        assert(taken.to_multiset().count(name) > 0);
        assert(taken.contains(name));
        let k = choose|k: int| 0 <= k < taken.len() && taken[k] == name;
        assert(run.appended[k].file_name == name);
    }
    lemma_resumed_run_finishes(names, prior, run.appended);
}

} // verus!
