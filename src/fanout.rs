//! The fan-out of one published message: to which subscribers it goes, in what
//! order, and when the delivery stops.
//!
//! Handing a message to a mailbox may have to wait; the caller performs each
//! hand-over that `next` asks for and reports back with `record`.
use vstd::prelude::*;

use crate::registry::{targets, Registry};
use crate::subject::{NatsError, PublishSubject};

verus! {

/// What the publisher is to do next.
#[derive(Debug, Clone, Copy, PartialEq, Eq, Structural)]
pub enum Step {
    /// Hand the message to the mailbox of this subscriber.
    Deliver(u64),
    /// Every matching subscriber accepted the message.
    Finished,
    /// A mailbox refused the message; the remaining subscribers are skipped.
    Failed,
}

/// The progress of delivering one message to the subscribers it matched when it
/// was published.
pub struct Fanout {
    targets: Vec<u64>,
    delivered: usize,
    failed: bool,
}

impl Fanout {
    /// The subscribers the message goes to, in order.
    pub closed spec fn targets(&self) -> Seq<u64> {
        self.targets@
    }

    /// How many of them have accepted it so far.
    pub closed spec fn delivered(&self) -> nat {
        self.delivered as nat
    }

    /// Whether a mailbox has refused it.
    pub closed spec fn failed(&self) -> bool {
        self.failed
    }

    /// The fan-out is consistent: no more deliveries than targets.
    pub closed spec fn wf(&self) -> bool {
        self.delivered <= self.targets@.len()
    }

    /// The step that follows from a state.
    pub open spec fn step_of(&self) -> Step {
        if self.failed() {
            Step::Failed
        } else if self.delivered() < self.targets().len() {
            Step::Deliver(self.targets()[self.delivered() as int])
        } else {
            Step::Finished
        }
    }

    /// Starts delivering a message published under `subject` to every registration
    /// of the registry whose pattern matches it, in order of registration. The
    /// registry is read once, here: later changes to it do not reach this message.
    pub fn start<S>(registry: &Registry<S>, subject: &PublishSubject) -> (r: Fanout)
        ensures
            r.wf(),
            r.targets() == targets(registry@, subject@),
            r.delivered() == 0,
            !r.failed(),
    {
        Fanout { targets: registry.matching(subject), delivered: 0, failed: false }
    }

    /// What to do next: deliver to the next target, or stop.
    pub fn next(&self) -> (r: Step)
        requires
            self.wf(),
        ensures
            r == self.step_of(),
    {
        if self.failed {
            Step::Failed
        } else if self.delivered < self.targets.len() {
            Step::Deliver(self.targets[self.delivered])
        } else {
            Step::Finished
        }
    }

    /// Records whether the target that `next` named accepted the message. A refusal
    /// ends the fan-out: no later target is offered the message.
    pub fn record(&mut self, accepted: bool)
        requires
            old(self).wf(),
            old(self).step_of() is Deliver,
        ensures
            final(self).wf(),
            final(self).targets() == old(self).targets(),
            accepted ==> final(self).delivered() == old(self).delivered() + 1,
            accepted ==> !final(self).failed(),
            !accepted ==> final(self).delivered() == old(self).delivered() && final(self).failed(),
    {
        let n = self.targets.len();
        assert(self.delivered < n);
        if accepted {
            self.delivered = self.delivered + 1;
        } else {
            self.failed = true;
        }
    }

    /// What `publish` returns once the fan-out has stopped: `Ok` when every target
    /// accepted the message, `DeliveryFailed` when one refused it; `None` while a
    /// delivery is still due.
    pub fn outcome(&self) -> (r: Option<Result<(), NatsError>>)
        requires
            self.wf(),
        ensures
            r == match self.step_of() {
                Step::Finished => Some(Ok(())),
                Step::Failed => Some(Err(NatsError::DeliveryFailed)),
                Step::Deliver(_) => None::<Result<(), NatsError>>,
            },
    {
        match self.next() {
            Step::Finished => Some(Ok(())),
            Step::Failed => Some(Err(NatsError::DeliveryFailed)),
            Step::Deliver(_) => None,
        }
    }
}

} // verus!
