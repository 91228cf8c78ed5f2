//! The monitor command: dispatch into the registry and the fixed response
//! lines.

use dr9k::command::{CheckCommand, EnableCommand, Monitor};
use dr9k::model::MessageModel;

#[test]
fn enable_toggles_and_reports() {
    let mut model = MessageModel::default();
    let r = Monitor::Enable(EnableCommand).handle(&mut model, Some(1), Some(2));
    assert_eq!(r.as_deref(), Some("Beginning to monitor this channel"));
    assert!(model.is_monitored(1, 2));
    let r = Monitor::Enable(EnableCommand).handle(&mut model, Some(1), Some(2));
    assert_eq!(r.as_deref(), Some("Stopping monitoring of this channel"));
    assert!(!model.is_monitored(1, 2));
}

#[test]
fn check_reports_without_changing_state() {
    let mut model = MessageModel::default();
    let r = Monitor::Check(CheckCommand).handle(&mut model, Some(1), Some(2));
    assert_eq!(r.as_deref(), Some("This channel is not being monitored"));
    model.toggle_monitor(1, 2);
    let r = Monitor::Check(CheckCommand).handle(&mut model, Some(1), Some(2));
    assert_eq!(r.as_deref(), Some("This channel is being monitored"));
    assert!(model.is_monitored(1, 2));
}

#[test]
fn missing_ids_do_nothing() {
    let mut model = MessageModel::default();
    assert!(Monitor::Enable(EnableCommand).handle(&mut model, None, Some(2)).is_none());
    assert!(Monitor::Enable(EnableCommand).handle(&mut model, Some(1), None).is_none());
    assert!(Monitor::Check(CheckCommand).handle(&mut model, None, None).is_none());
    assert!(!model.is_monitored(1, 2));
    assert_eq!(model.save_all().len(), 0);
}
