use pi_garage_monitor::notify::{
    notice, should_send, BusItem, Notifier, NotifyAction, IMPROVEMENT_COOLDOWN, NANOS_PER_SEC,
};
use pi_garage_monitor::weather::Level;
use pi_garage_monitor::DataEvent;

#[test]
fn escalations_send_immediately() {
    assert!(should_send(Level::Warning, Level::Okay, None));
    assert!(should_send(Level::Critical, Level::Warning, Some(1)));
}

#[test]
fn unchanged_level_stays_silent() {
    assert!(!should_send(Level::Okay, Level::Okay, None));
    assert!(!should_send(Level::Critical, Level::Critical, Some(9999)));
}

#[test]
fn improvements_wait_out_the_cooldown() {
    assert!(!should_send(Level::Okay, Level::Critical, Some(60)));
    assert!(should_send(Level::Okay, Level::Critical, Some(IMPROVEMENT_COOLDOWN)));
    assert!(should_send(Level::Warning, Level::Critical, Some(IMPROVEMENT_COOLDOWN)));
}

#[test]
fn the_cooldown_is_a_quarter_of_an_hour() {
    assert_eq!(IMPROVEMENT_COOLDOWN, 900);
    assert!(!should_send(Level::Okay, Level::Warning, Some(899)));
    assert!(!should_send(Level::Okay, Level::Warning, None));
}

#[test]
fn each_level_has_its_headers() {
    let alert = notice(Level::Critical);
    assert_eq!(
        (alert.title, alert.priority, alert.tags),
        ("Garage alert", "urgent", "rotating_light")
    );
    let caution = notice(Level::Warning);
    assert_eq!(
        (caution.title, caution.priority, caution.tags),
        ("Garage caution", "high", "warning")
    );
    let clear = notice(Level::Okay);
    assert_eq!(
        (clear.title, clear.priority, clear.tags),
        ("Garage all clear", "default", "white_check_mark")
    );
}

#[test]
fn only_new_data_is_assessed() {
    let n = Notifier::new();
    assert_eq!(n.on_item(BusItem::Data(DataEvent::Reading)), NotifyAction::Assess);
    assert_eq!(n.on_item(BusItem::Data(DataEvent::Outdoor)), NotifyAction::Assess);
    assert_eq!(n.on_item(BusItem::Data(DataEvent::Events)), NotifyAction::Receive);
    assert_eq!(n.on_item(BusItem::Lagged), NotifyAction::Receive);
    assert_eq!(n.on_item(BusItem::Closed), NotifyAction::Stop);
}

#[test]
fn a_healthy_boot_stays_silent_and_a_bad_one_alerts() {
    let n = Notifier::new();
    assert_eq!(n.on_assessed(Some(Level::Okay), 0), NotifyAction::Receive);
    assert_eq!(n.on_assessed(None, 0), NotifyAction::Receive);
    assert_eq!(n.on_assessed(Some(Level::Warning), 0), NotifyAction::Send);
}

#[test]
fn a_failed_notification_is_retried() {
    let mut n = Notifier::new();
    assert_eq!(n.on_assessed(Some(Level::Critical), 5), NotifyAction::Send);
    assert_eq!(n.on_sent(Level::Critical, false, 6), NotifyAction::Receive);
    assert_eq!(n, Notifier::new());
    assert_eq!(n.on_assessed(Some(Level::Critical), 7), NotifyAction::Send);
    assert_eq!(n.on_sent(Level::Critical, true, 8), NotifyAction::Receive);
    assert_eq!(n.on_assessed(Some(Level::Critical), 9), NotifyAction::Receive);
}

#[test]
fn oscillation_yields_one_alert_pair_per_cooldown() {
    let mut n = Notifier::new();
    let mut sent: Vec<(u64, Level)> = Vec::new();
    for minute in 0..60u64 {
        let level = if minute % 2 == 0 { Level::Warning } else { Level::Okay };
        let now = minute * 60 * NANOS_PER_SEC;
        if n.on_assessed(Some(level), now) == NotifyAction::Send {
            n.on_sent(level, true, now);
            sent.push((minute, level));
        }
    }
    assert_eq!(
        sent,
        vec![
            (0, Level::Warning),
            (15, Level::Okay),
            (16, Level::Warning),
            (31, Level::Okay),
            (32, Level::Warning),
            (47, Level::Okay),
            (48, Level::Warning),
        ]
    );
}

#[test]
fn the_cooldown_counts_whole_seconds_since_delivery() {
    let mut n = Notifier::new();
    n.on_sent(Level::Critical, true, 7);
    let cooldown = IMPROVEMENT_COOLDOWN * NANOS_PER_SEC;
    assert_eq!(n.on_assessed(Some(Level::Okay), cooldown + 6), NotifyAction::Receive);
    assert_eq!(n.on_assessed(Some(Level::Okay), cooldown + 7), NotifyAction::Send);
    assert_eq!(n.on_assessed(Some(Level::Okay), 0), NotifyAction::Receive);
}
