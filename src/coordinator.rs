//! Decisions of the coordinator that overlaps a running generator with the
//! verification of the units it has already written. The caller owns the
//! generator process, the clock, the directory listing and the workers; at each
//! poll it reports what it observed and carries out the returned action.

use crate::scan::{discovered, ScanState};
use vstd::prelude::*;

verus! {

/// How a generation run ended.
pub enum RunOutcome {
    /// The generator ran past its time budget; the run is aborted.
    TimedOut,
    /// The unit at this path failed verification: the expected way for a run
    /// to end early.
    FailureFound(String),
    /// The generator exited and every unit it wrote passed.
    AllPassed,
}

impl RunOutcome {
    /// A copy of the outcome.
    pub fn duplicate(&self) -> (r: RunOutcome)
        ensures
            r == *self,
    {
        match self {
            RunOutcome::TimedOut => RunOutcome::TimedOut,
            RunOutcome::FailureFound(p) => RunOutcome::FailureFound(p.clone()),
            RunOutcome::AllPassed => RunOutcome::AllPassed,
        }
    }
}

/// The outcome that the state of a run gives once every unit was verified.
pub open spec fn concluded(failure: Option<Seq<char>>, outcome: RunOutcome) -> bool {
    match failure {
        Some(p) => outcome matches RunOutcome::FailureFound(q) && q@ == p,
        None => outcome == RunOutcome::AllPassed,
    }
}

/// What the caller does after a poll.
pub enum PollAction {
    /// Kill the generator, wait for it to exit, and end the run with this
    /// outcome. Work already handed out may finish; nothing new is handed out.
    Stop(RunOutcome),
    /// Verify these units, then sleep for the poll interval and poll again.
    Verify(Vec<String>),
    /// The generator had exited before the listing was taken: verify these
    /// last units, then conclude the run.
    VerifyLast(Vec<String>),
}

/// The coordinator of one generation run.
pub struct Coordinator {
    timeout_secs: u64,
    base: String,
    suffix: String,
    skip_below: usize,
    stopped: Option<RunOutcome>,
}

impl Coordinator {
    /// The time budget of the generator, in seconds.
    pub closed spec fn timeout(&self) -> nat {
        self.timeout_secs as nat
    }

    /// The name of the generator's input, which starts every unit name.
    pub closed spec fn base_name(&self) -> Seq<char> {
        self.base@
    }

    /// The ending of every unit name.
    pub closed spec fn unit_suffix(&self) -> Seq<char> {
        self.suffix@
    }

    /// Units whose sequence number is below this are not verified; zero
    /// verifies all.
    pub closed spec fn start_threshold(&self) -> nat {
        self.skip_below as nat
    }

    /// How the run ended, once it has.
    pub closed spec fn outcome(&self) -> Option<RunOutcome> {
        self.stopped
    }

    /// A coordinator for a run whose generator reads the input `base`, writes
    /// units ending in `suffix`, and has `timeout_secs` seconds to finish.
    pub fn new(timeout_secs: u64, base: String, suffix: String, skip_below: usize) -> (r: Coordinator)
        ensures
            r.timeout() == timeout_secs,
            r.base_name() == base@,
            r.unit_suffix() == suffix@,
            r.start_threshold() == skip_below,
            r.outcome() is None,
    {
        Coordinator { timeout_secs, base, suffix, skip_below, stopped: None }
    }

    /// Whether the run has ended.
    pub fn is_finished(&self) -> (r: bool)
        ensures
            r == self.outcome() is Some,
    {
        self.stopped.is_some()
    }

    /// One poll: `elapsed_secs` since the generator started, the names in its
    /// output directory, and whether it had exited before they were listed.
    /// The time budget is checked first, then the failure slot; otherwise the
    /// new units are picked up from the listing and handed out. Once the run
    /// has stopped, every later poll stops again with the same outcome.
    pub fn poll(
        &mut self,
        state: &mut ScanState,
        elapsed_secs: u64,
        listing: &Vec<String>,
        generator_exited: bool,
    ) -> (action: PollAction)
        requires
            old(state).wf(),
        ensures
            final(state).wf(),
            final(self).timeout() == old(self).timeout(),
            final(self).base_name() == old(self).base_name(),
            final(self).unit_suffix() == old(self).unit_suffix(),
            final(self).start_threshold() == old(self).start_threshold(),
            old(self).outcome() matches Some(o) ==> {
                &&& action == PollAction::Stop(o)
                &&& final(self).outcome() == Some(o)
                &&& *final(state) == *old(state)
            },
            old(self).outcome() is None && elapsed_secs >= old(self).timeout() ==> {
                &&& action == PollAction::Stop(RunOutcome::TimedOut)
                &&& final(self).outcome() == Some(RunOutcome::TimedOut)
                &&& *final(state) == *old(state)
            },
            old(self).outcome() is None && elapsed_secs < old(self).timeout() && old(state).failure() is Some ==> {
                &&& action matches PollAction::Stop(o) && concluded(old(state).failure(), o) && final(self).outcome()
                    == Some(o)
                &&& *final(state) == *old(state)
            },
            old(self).outcome() is None && elapsed_secs < old(self).timeout() && old(state).failure() is None ==> {
                &&& final(self).outcome() is None
                &&& match action {
                    PollAction::Verify(f) => !generator_exited && discovered(
                        *old(state),
                        *final(state),
                        f@,
                        listing@,
                        old(self).base_name(),
                        old(self).unit_suffix(),
                        old(self).start_threshold(),
                    ),
                    PollAction::VerifyLast(f) => generator_exited && discovered(
                        *old(state),
                        *final(state),
                        f@,
                        listing@,
                        old(self).base_name(),
                        old(self).unit_suffix(),
                        old(self).start_threshold(),
                    ),
                    PollAction::Stop(_) => false,
                }
            },
    {
        match &self.stopped {
            Some(o) => {
                return PollAction::Stop(o.duplicate());
            },
            None => {},
        }
        if elapsed_secs >= self.timeout_secs {
            self.stopped = Some(RunOutcome::TimedOut);
            return PollAction::Stop(RunOutcome::TimedOut);
        }
        match state.first_failure() {
            Some(p) => {
                let o = RunOutcome::FailureFound(p);
                self.stopped = Some(o.duplicate());
                return PollAction::Stop(o);
            },
            None => {},
        }
        let fresh = state.discover(listing, self.base.as_str(), self.suffix.as_str(), self.skip_below);
        if generator_exited {
            PollAction::VerifyLast(fresh)
        } else {
            PollAction::Verify(fresh)
        }
    }

    /// Ends a run after its last units were verified: the first failure, if
    /// one was recorded, else every unit passed.
    pub fn conclude(&mut self, state: &ScanState) -> (r: RunOutcome)
        requires
            old(self).outcome() is None,
        ensures
            concluded(state.failure(), r),
            final(self).outcome() == Some(r),
            final(self).timeout() == old(self).timeout(),
            final(self).base_name() == old(self).base_name(),
            final(self).unit_suffix() == old(self).unit_suffix(),
            final(self).start_threshold() == old(self).start_threshold(),
    {
        let r = match state.first_failure() {
            Some(p) => RunOutcome::FailureFound(p),
            None => RunOutcome::AllPassed,
        };
        self.stopped = Some(r.duplicate());
        r
    }
}

} // verus!
