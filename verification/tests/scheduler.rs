use fly_into_the_maelstrom::scheduler::WakeUpAction;
use fly_into_the_maelstrom::scheduler::WakeUpScheduler;

#[test]
fn rearming_supersedes_the_previous_timer() {
    // Schedule a wake-up for now + 50, then immediately one for now + 200:
    // exactly one timer stays armed, for the later deadline.
    let now = 1000u64;
    let mut scheduler = WakeUpScheduler::new();
    let first = scheduler.on_request(Some(now + 50), now);
    assert_eq!(first, WakeUpAction::Arm(1050));
    let second = scheduler.on_request(Some(now + 200), now);
    assert_eq!(second, WakeUpAction::Arm(1200));
    assert_eq!(scheduler.armed, Some(1200));
}

#[test]
fn no_wake_up_desired_cancels_the_timer() {
    let mut scheduler = WakeUpScheduler::new();
    scheduler.on_request(Some(500), 0);
    let action = scheduler.on_request(None, 10);
    assert_eq!(action, WakeUpAction::CancelOnly);
    assert_eq!(scheduler.armed, None);
}

#[test]
fn past_deadline_fires_immediately() {
    let mut scheduler = WakeUpScheduler::new();
    let action = scheduler.on_request(Some(100), 100);
    assert_eq!(action, WakeUpAction::FireNow);
    assert_eq!(scheduler.armed, None);
}
