use vstd::prelude::*;

verus! {

/// What the wake-up scheduler asks its surroundings to do after a request:
/// every action first cancels the running timer, so a superseded timer never
/// delivers a stale wake-up.
#[derive(PartialEq, Eq, Structural, Clone, Copy, Debug)]
pub enum WakeUpAction {
    /// Cancel any running timer; nothing is armed afterwards.
    CancelOnly,
    /// Cancel any running timer and start a fresh one for the deadline.
    Arm(u64),
    /// Cancel any running timer and deliver a wake-up event immediately:
    /// the requested deadline has already passed.
    FireNow,
}

/// The wake-up scheduler's model: it owns at most one pending timer — by
/// construction, since the armed deadline is a single optional value. Each
/// request replaces whatever was armed before.
#[derive(PartialEq, Eq, Structural, Clone, Copy, Debug)]
pub struct WakeUpScheduler {
    /// The deadline (in milliseconds) of the single armed timer, if one is
    /// armed.
    pub armed: Option<u64>,
}

impl WakeUpScheduler {
    /// The state and action after a request: `None` cancels; a future
    /// deadline arms a fresh timer; a deadline at or before `now` fires
    /// immediately and leaves nothing armed.
    pub open spec fn step(self, requested: Option<u64>, now: u64) -> (WakeUpScheduler, WakeUpAction) {
        match requested {
            Option::None => (WakeUpScheduler { armed: None }, WakeUpAction::CancelOnly),
            Option::Some(t) => if t > now {
                (WakeUpScheduler { armed: Some(t) }, WakeUpAction::Arm(t))
            } else {
                (WakeUpScheduler { armed: None }, WakeUpAction::FireNow)
            },
        }
    }

    /// A scheduler with no timer armed.
    pub fn new() -> (r: Self)
        ensures
            r.armed is None,
    {
        WakeUpScheduler { armed: None }
    }

    /// Apply one wake-up request at time `now` and return the action the
    /// surroundings must take. Whatever was armed before is superseded.
    pub fn on_request(&mut self, requested: Option<u64>, now: u64) -> (a: WakeUpAction)
        ensures
            (*final(self), a) == old(self).step(requested, now),
    {
        match requested {
            None => {
                self.armed = None;
                WakeUpAction::CancelOnly
            },
            Some(t) => {
                if t > now {
                    self.armed = Some(t);
                    WakeUpAction::Arm(t)
                } else {
                    self.armed = None;
                    WakeUpAction::FireNow
                }
            },
        }
    }
}

/// Re-arming supersedes: after a wake-up is scheduled and a new one is
/// scheduled right away, exactly the later timer is armed — the scheduler
/// holds at most one pending timer, so the earlier wake-up never fires and
/// only one wake-up event results, at the later deadline.
pub proof fn lemma_rearm_supersedes(s: WakeUpScheduler, t1: u64, t2: u64, now: u64)
    requires
        now < t1,
        now < t2,
    ensures
        ({
            let (s1, a1) = s.step(Some(t1), now);
            let (s2, a2) = s1.step(Some(t2), now);
            a1 == WakeUpAction::Arm(t1) && a2 == WakeUpAction::Arm(t2) && s2.armed == Some(t2)
        }),
{
}

} // verus!
