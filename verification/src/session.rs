//! The course of a session: what the service does, in which order, until it ends.

use vstd::prelude::*;

verus! {

/// How much time passes between two rounds of maintenance: a second, in nanoseconds.
pub const INTERVAL: u64 = 1_000_000_000;

/// What the service does next.
#[derive(Clone, Copy, Debug, Eq, PartialEq, Structural)]
pub enum Step {
    /// Register the application cgroups beneath the root.
    Discover,
    /// Learn the cgroups of the units that exist.
    LoadUnits,
    /// Look at the focus for the first time.
    Reconcile,
    /// Take the messages that have come over the bus.
    Dispatch,
    /// Act on the news of units.
    Units,
    /// Act on the events of the watches.
    Watches,
    /// Find the root of all applications again.
    FindRoot,
    /// Let go of everything outside the root.
    Restrict,
    /// Register the application cgroups beneath the root again: some may have come
    /// without notice.
    Rediscover,
    /// Do a round of maintenance.
    Maintain,
    /// Wait for the bus, the watches or the next second.
    Wait,
    /// Restore everything.
    Shutdown,
    /// Nothing: the session is over.
    Finished,
}

/// What a step has brought.
#[derive(Clone, Copy, Debug, Eq, PartialEq, Structural)]
pub struct Report {
    /// The service has been told to end.
    pub terminated: bool,
    /// The bus has failed.
    pub failed: bool,
    /// The root of all applications is known.
    pub rooted: bool,
    /// The time, in nanoseconds since some fixed moment.
    pub now: u64,
}

/// Whether maintenance is due.
pub open spec fn due(last: u64, now: u64) -> bool {
    now - last >= INTERVAL
}

/// The first step.
pub open spec fn first_step(rooted: bool) -> Step {
    if rooted {
        Step::Discover
    } else {
        Step::LoadUnits
    }
}

/// The step after a step.
pub open spec fn next_step(step: Step, last: u64, report: Report) -> Step {
    match step {
        Step::Discover => Step::LoadUnits,
        Step::LoadUnits => Step::Reconcile,
        Step::Reconcile | Step::Wait => if report.terminated {
            Step::Shutdown
        } else {
            Step::Dispatch
        },
        Step::Dispatch => if report.failed || report.terminated {
            Step::Shutdown
        } else {
            Step::Units
        },
        Step::Units => Step::Watches,
        Step::Watches => if due(last, report.now) {
            Step::FindRoot
        } else {
            Step::Wait
        },
        Step::FindRoot => if report.rooted {
            Step::Restrict
        } else {
            Step::Maintain
        },
        Step::Restrict => Step::Rediscover,
        Step::Rediscover => Step::Maintain,
        Step::Maintain => Step::Wait,
        Step::Shutdown => Step::Finished,
        Step::Finished => Step::Finished,
    }
}

/// When maintenance was last done, or might have been, after a step.
pub open spec fn last_after(step: Step, last: u64, report: Report) -> u64 {
    match step {
        Step::Reconcile | Step::Maintain => report.now,
        _ => last,
    }
}

/// A session.
pub struct Session {
    /// The step that is to be done.
    pub step: Step,
    /// When maintenance was last done.
    pub last: u64,
}

impl Session {
    /// Begins a session.
    pub fn new(rooted: bool, now: u64) -> (session: Self)
        ensures
            session.step == first_step(rooted),
            session.last == now,
    {
        let step = if rooted {
            Step::Discover
        } else {
            Step::LoadUnits
        };
        Session { step, last: now }
    }

    /// Goes on when the step is done.
    pub fn advance(&mut self, report: Report)
        ensures
            final(self).step == next_step(old(self).step, old(self).last, report),
            final(self).last == last_after(old(self).step, old(self).last, report),
    {
        let step = self.step;
        let last: u64 = self.last;
        self.step = match step {
            Step::Discover => Step::LoadUnits,
            Step::LoadUnits => Step::Reconcile,
            Step::Reconcile | Step::Wait => {
                if report.terminated {
                    Step::Shutdown
                } else {
                    Step::Dispatch
                }
            },
            Step::Dispatch => {
                if report.failed || report.terminated {
                    Step::Shutdown
                } else {
                    Step::Units
                }
            },
            Step::Units => Step::Watches,
            Step::Watches => {
                if report.now >= last && report.now - last >= INTERVAL {
                    Step::FindRoot
                } else {
                    Step::Wait
                }
            },
            Step::FindRoot => {
                if report.rooted {
                    Step::Restrict
                } else {
                    Step::Maintain
                }
            },
            Step::Restrict => Step::Rediscover,
            Step::Rediscover => Step::Maintain,
            Step::Maintain => Step::Wait,
            Step::Shutdown => Step::Finished,
            Step::Finished => Step::Finished,
        };
        match step {
            Step::Reconcile | Step::Maintain => {
                self.last = report.now;
            },
            _ => {},
        }
    }
}

/// A session ends with the restoration of everything, and with nothing else.
pub proof fn a_session_ends_with_a_shutdown(step: Step, last: u64, report: Report)
    requires
        step != Step::Finished,
    ensures
        next_step(step, last, report) == Step::Finished <==> step == Step::Shutdown,
{
}

/// A failure of the bus ends the session, but not before everything is restored.
pub proof fn a_failure_leads_to_a_shutdown(last: u64, report: Report)
    requires
        report.failed,
    ensures
        next_step(Step::Dispatch, last, report) == Step::Shutdown,
{
}

/// How many steps there are before the shutdown at most, once the service has been told
/// to end.
pub open spec fn remaining(step: Step) -> nat {
    match step {
        Step::Units => 8,
        Step::Watches => 7,
        Step::FindRoot => 6,
        Step::Restrict => 5,
        Step::Rediscover => 4,
        Step::Maintain => 3,
        Step::Discover => 4,
        Step::LoadUnits => 3,
        Step::Reconcile | Step::Dispatch | Step::Wait => 2,
        Step::Shutdown => 1,
        Step::Finished => 0,
    }
}

/// Once the service has been told to end, every step brings the shutdown closer.
pub proof fn termination_leads_to_a_shutdown(step: Step, last: u64, report: Report)
    requires
        report.terminated,
        step != Step::Finished,
    ensures
        remaining(next_step(step, last, report)) < remaining(step),
{
}

/// Maintenance is begun no more than once per second: what leads to it is a second
/// after what came before it.
pub proof fn maintenance_is_begun_once_per_second(last: u64, report: Report)
    ensures
        next_step(Step::Watches, last, report) == Step::FindRoot <==> report.now - last
            >= 1_000_000_000,
        last_after(Step::Maintain, last, report) == report.now,
{
}

/// The step after several steps, with what each has brought.
pub open spec fn step_after(step: Step, last: u64, reports: Seq<Report>) -> Step
    decreases reports.len(),
{
    if reports.len() == 0 {
        step
    } else {
        step_after(
            next_step(step, last, reports[0]),
            last_after(step, last, reports[0]),
            reports.drop_first(),
        )
    }
}

/// Nothing ends the session.
pub open spec fn undisturbed(reports: Seq<Report>) -> bool {
    forall|i: int|
        0 <= i < reports.len() ==> !(#[trigger] reports[i]).terminated && !reports[i].failed
}

proof fn lemma_one(step: Step, last: u64, reports: Seq<Report>)
    requires
        reports.len() > 0,
        undisturbed(reports),
    ensures
        undisturbed(reports.drop_first()),
        reports.drop_first().len() == reports.len() - 1,
        step_after(step, last, reports) == step_after(
            next_step(step, last, reports[0]),
            last_after(step, last, reports[0]),
            reports.drop_first(),
        ),
{
}

/// A session begins with the cgroups that exist, goes on with the units that exist, and only
/// then looks at the focus; after that its rounds begin.
pub proof fn a_session_begins(rooted: bool, last: u64, reports: Seq<Report>)
    requires
        undisturbed(reports),
    ensures
        rooted ==> first_step(rooted) == Step::Discover,
        reports.len() == 1 ==> step_after(Step::Discover, last, reports) == Step::LoadUnits,
        !rooted ==> first_step(rooted) == Step::LoadUnits,
        reports.len() == 1 ==> step_after(Step::LoadUnits, last, reports) == Step::Reconcile,
        reports.len() == 2 ==> step_after(Step::LoadUnits, last, reports) == Step::Dispatch,
{
    if reports.len() > 0 {
        lemma_one(Step::Discover, last, reports);
        lemma_one(Step::LoadUnits, last, reports);
        if reports.len() > 1 {
            lemma_one(Step::Reconcile, last, reports.drop_first());
        }
    }
}

/// As long as nothing ends the session, every round takes the messages, acts on the news of
/// units and then on the events of the watches, and waits. Where a second has passed since
/// the last maintenance, it is maintained before the wait: beneath the root, if that is
/// found, everything outside is let go and everything inside is found first.
pub proof fn rounds_follow_each_other(last: u64, reports: Seq<Report>)
    requires
        undisturbed(reports),
    ensures
        reports.len() == 1 ==> step_after(Step::Dispatch, last, reports) == Step::Units,
        reports.len() == 2 ==> step_after(Step::Dispatch, last, reports) == Step::Watches,
        reports.len() == 4 && reports[2].now - last < 1_000_000_000 ==> step_after(
            Step::Dispatch,
            last,
            reports,
        ) == Step::Dispatch,
        reports.len() == 4 && reports[2].now - last >= 1_000_000_000 && !reports[3].rooted
            ==> step_after(Step::Dispatch, last, reports) == Step::Maintain,
        reports.len() == 4 && reports[2].now - last >= 1_000_000_000 && reports[3].rooted
            ==> step_after(Step::Dispatch, last, reports) == Step::Restrict,
        reports.len() == 1 ==> step_after(Step::Restrict, last, reports) == Step::Rediscover,
        reports.len() == 2 ==> step_after(Step::Restrict, last, reports) == Step::Maintain,
        reports.len() == 2 ==> step_after(Step::Maintain, last, reports) == Step::Dispatch,
{
    if reports.len() > 0 {
        lemma_one(Step::Dispatch, last, reports);
        lemma_one(Step::Restrict, last, reports);
        lemma_one(Step::Maintain, last, reports);
    }
    if reports.len() > 1 {
        let rest = reports.drop_first();
        lemma_one(Step::Units, last, rest);
        lemma_one(Step::Rediscover, last, rest);
        lemma_one(Step::Wait, reports[0].now, rest);
        if reports.len() > 2 {
            let more = rest.drop_first();
            lemma_one(Step::Watches, last, more);
            if reports.len() > 3 {
                lemma_one(Step::FindRoot, last, more.drop_first());
                lemma_one(Step::Wait, last, more.drop_first());
            }
        }
    }
}

}
