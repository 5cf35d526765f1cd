//! Admission of tile tasks under a ceiling on the number in flight.
//!
//! The scheduler decides; it runs nothing itself. Its driver asks what to do
//! next, launches the task it is told to launch, and reports each task that
//! has ended. Tiles are handed out by number, in order, each once.

use vstd::prelude::*;

verus! {

/// What the driver is to do next.
#[derive(Clone, Copy, Debug, PartialEq, Eq, Structural)]
pub enum Admission {
    /// Start the task for the tile with this number.
    Launch(u64),
    /// Start nothing now: the ceiling is reached, or every tile has been
    /// handed out and some tasks are still running.
    Wait,
    /// Every tile has been handed out and every task has ended.
    Finished,
}

/// The bookkeeping of one render: how many tiles there are, how many have
/// been handed out, how many tasks are running and how many may run at once.
#[derive(Clone, Copy, Debug, PartialEq, Eq, Structural)]
pub struct TileScheduler {
    pub total: u64,
    pub launched: u64,
    pub in_flight: u32,
    pub max_jobs: u32,
}

impl TileScheduler {
    /// The counters are consistent: no more tiles handed out than exist, no
    /// more tasks running than were started or than the ceiling admits.
    pub open spec fn wf(self) -> bool {
        &&& self.launched <= self.total
        &&& self.in_flight <= self.max_jobs
        &&& self.in_flight <= self.launched
    }

    /// The number of tasks that have ended.
    pub open spec fn completed(self) -> int {
        self.launched - self.in_flight
    }

    /// The decision taken in this state.
    pub open spec fn decision(self) -> Admission {
        if self.launched < self.total {
            if self.in_flight < self.max_jobs {
                Admission::Launch(self.launched)
            } else {
                Admission::Wait
            }
        } else if self.in_flight > 0 {
            Admission::Wait
        } else {
            Admission::Finished
        }
    }

    /// The state after the decision: a launch counts one more tile handed
    /// out and one more task running, anything else changes nothing.
    pub open spec fn after_decision(self) -> Self {
        if self.decision() is Launch {
            TileScheduler {
                launched: (self.launched + 1) as u64,
                in_flight: (self.in_flight + 1) as u32,
                ..self
            }
        } else {
            self
        }
    }

    /// The state after one running task has ended.
    pub open spec fn after_completion(self) -> Self {
        TileScheduler { in_flight: (self.in_flight - 1) as u32, ..self }
    }

    /// A scheduler for `total` tiles that lets at most `max_jobs` tasks run
    /// at once. Nothing has been handed out yet.
    pub fn new(total: u64, max_jobs: u32) -> (scheduler: Self)
        ensures
            scheduler.wf(),
            scheduler == (TileScheduler { total, launched: 0, in_flight: 0, max_jobs }),
    {
        TileScheduler { total, launched: 0, in_flight: 0, max_jobs }
    }

    /// Decides what the driver is to do next and, for a launch, counts the
    /// task as running.
    pub fn next_action(&mut self) -> (action: Admission)
        requires
            old(self).wf(),
        ensures
            action == old(self).decision(),
            *final(self) == old(self).after_decision(),
            final(self).wf(),
    {
        if self.launched < self.total {
            if self.in_flight < self.max_jobs {
                let index: u64 = self.launched;
                self.launched = self.launched + 1;
                self.in_flight = self.in_flight + 1;
                Admission::Launch(index)
            } else {
                Admission::Wait
            }
        } else if self.in_flight > 0 {
            Admission::Wait
        } else {
            Admission::Finished
        }
    }

    /// Records that one running task has ended.
    pub fn task_finished(&mut self)
        requires
            old(self).wf(),
            old(self).in_flight > 0,
        ensures
            *final(self) == old(self).after_completion(),
            final(self).wf(),
            final(self).completed() == old(self).completed() + 1,
    {
        self.in_flight = self.in_flight - 1;
    }

    /// How many tasks are running.
    pub fn running(&self) -> (n: u32)
        ensures
            n == self.in_flight,
    {
        self.in_flight
    }
}

/// Tiles are handed out in order and under the ceiling: a launch names the
/// first tile not yet handed out, and happens only while fewer tasks run
/// than the ceiling admits.
pub proof fn lemma_launch_is_next_tile(s: TileScheduler, index: u64)
    requires
        s.wf(),
        s.decision() == Admission::Launch(index),
    ensures
        index == s.launched,
        index < s.total,
        s.in_flight < s.max_jobs,
        s.after_decision().launched == index + 1,
        s.after_decision().in_flight == s.in_flight + 1,
        s.after_decision().wf(),
{
}

/// The render is finished exactly when every tile has been handed out and
/// no task is running, and then every tile's task has ended.
pub proof fn lemma_finished_means_all_done(s: TileScheduler)
    requires
        s.wf(),
    ensures
        s.decision() is Finished <==> s.launched == s.total && s.in_flight == 0,
        s.decision() is Finished ==> s.completed() == s.total,
{
}

/// With a ceiling above zero, a driver that is told to wait has a running
/// task to wait for: the scheduler never stalls with work left and nothing
/// in flight.
pub proof fn lemma_wait_has_running_task(s: TileScheduler)
    requires
        s.wf(),
        s.max_jobs > 0,
        s.decision() is Wait,
    ensures
        s.in_flight > 0,
{
}

/// Every step makes progress: a launch hands out a tile, a completion ends
/// a task, so `2 * total - launched - completed` falls with each and the
/// render ends after `2 * total` steps that are not waits.
pub proof fn lemma_steps_make_progress(s: TileScheduler)
    requires
        s.wf(),
    ensures
        s.decision() is Launch ==> s.after_decision().launched + s.after_decision().completed()
            == s.launched + s.completed() + 1,
        s.in_flight > 0 ==> s.after_completion().launched + s.after_completion().completed()
            == s.launched + s.completed() + 1,
        s.launched + s.completed() <= 2 * s.total,
{
}

/// What a driver does to the scheduler, one step at a time.
pub enum Step {
    /// It asks what to do next, and does it.
    Ask,
    /// It reports that a running task has ended.
    Report,
}

impl TileScheduler {
    /// The state after the driver has taken `steps`, in order.
    pub open spec fn after_steps(self, steps: Seq<Step>) -> Self
        decreases steps.len(),
    {
        if steps.len() == 0 {
            self
        } else {
            let earlier = self.after_steps(steps.drop_last());
            match steps.last() {
                Step::Ask => earlier.after_decision(),
                Step::Report => earlier.after_completion(),
            }
        }
    }

    /// Whether the driver may take `steps`: it reports a task only while
    /// one is running.
    pub open spec fn admits(self, steps: Seq<Step>) -> bool
        decreases steps.len(),
    {
        steps.len() > 0 ==> {
            &&& self.admits(steps.drop_last())
            &&& steps.last() is Report ==> self.after_steps(steps.drop_last()).in_flight > 0
        }
    }

    /// The tiles launched while the driver takes `steps`, in the order of
    /// their launches.
    pub open spec fn launches(self, steps: Seq<Step>) -> Seq<u64>
        decreases steps.len(),
    {
        if steps.len() == 0 {
            Seq::empty()
        } else {
            let earlier = self.after_steps(steps.drop_last());
            let so_far = self.launches(steps.drop_last());
            match (steps.last(), earlier.decision()) {
                (Step::Ask, Admission::Launch(index)) => so_far.push(index),
                _ => so_far,
            }
        }
    }
}

/// However the driver interleaves its questions with the reports of ended
/// tasks, a fresh scheduler hands out the tiles by number, in order and each
/// once: after any run the launches are tiles `0`, `1`, and so on up to the
/// number launched. The counters stay consistent throughout, so the number
/// of running tasks never passes the ceiling.
pub proof fn lemma_run_launches_each_tile_once(total: u64, max_jobs: u32, steps: Seq<Step>)
    requires
        (TileScheduler { total, launched: 0, in_flight: 0, max_jobs }).admits(steps),
    ensures
        ({
            let start = TileScheduler { total, launched: 0, in_flight: 0, max_jobs };
            let end = start.after_steps(steps);
            &&& end.wf()
            &&& end.total == total
            &&& end.max_jobs == max_jobs
            &&& start.launches(steps) == Seq::new(end.launched as nat, |i: int| i as u64)
        }),
    decreases steps.len(),
{
    let start = TileScheduler { total, launched: 0, in_flight: 0, max_jobs };
    let end = start.after_steps(steps);
    if steps.len() > 0 {
        lemma_run_launches_each_tile_once(total, max_jobs, steps.drop_last());
    }
    assert(start.launches(steps) =~= Seq::new(end.launched as nat, |i: int| i as u64));
}

} // verus!
