//! Classification order, the rolling window, and the monitor toggle.

use dr9k::model::{MessageAccepted, MessageModel, MessageRejected};

const GUILD: u64 = 10;
const CHANNEL: u64 = 20;

fn monitored_model() -> MessageModel {
    let mut model = MessageModel::default();
    let was = model.toggle_monitor(GUILD, CHANNEL);
    assert!(!was);
    model
}

#[test]
fn no_community_is_accepted_untouched() {
    let mut model = monitored_model();
    let r = model.insert_message(None, CHANNEL, false, false, "hello", 0);
    assert_eq!(r, Ok(MessageAccepted::NotInGuild));
    // Nothing was recorded: the same content is still new afterwards.
    let r = model.insert_message(Some(GUILD), CHANNEL, false, false, "hello", 1);
    assert_eq!(r, Ok(MessageAccepted::Nominal));
}

#[test]
fn attachment_is_accepted_untouched() {
    let mut model = monitored_model();
    let r = model.insert_message(Some(GUILD), CHANNEL, false, true, "hello", 0);
    assert_eq!(r, Ok(MessageAccepted::HasAttachment));
    let r = model.insert_message(Some(GUILD), CHANNEL, false, true, "hello", 1);
    assert_eq!(r, Ok(MessageAccepted::HasAttachment));
    // The attachment path never recorded the text.
    let r = model.insert_message(Some(GUILD), CHANNEL, false, false, "hello", 2);
    assert_eq!(r, Ok(MessageAccepted::Nominal));
}

#[test]
fn unmonitored_channel_is_accepted_untouched() {
    let mut model = MessageModel::default();
    let r = model.insert_message(Some(GUILD), CHANNEL, false, false, "hello", 0);
    assert_eq!(r, Ok(MessageAccepted::NotMonitored));
    let r = model.insert_message(Some(GUILD), CHANNEL, false, false, "hello", 1);
    assert_eq!(r, Ok(MessageAccepted::NotMonitored));
}

#[test]
fn bot_is_accepted_untouched() {
    let mut model = monitored_model();
    let r = model.insert_message(Some(GUILD), CHANNEL, true, false, "hello", 0);
    assert_eq!(r, Ok(MessageAccepted::Bot));
    // The bot's message was not recorded against humans.
    let r = model.insert_message(Some(GUILD), CHANNEL, false, false, "hello", 1);
    assert_eq!(r, Ok(MessageAccepted::Nominal));
}

#[test]
fn toggle_twice_restores_membership() {
    let mut model = MessageModel::default();
    assert!(!model.is_monitored(GUILD, CHANNEL));
    let first = model.toggle_monitor(GUILD, CHANNEL);
    assert!(!first);
    assert!(model.is_monitored(GUILD, CHANNEL));
    let second = model.toggle_monitor(GUILD, CHANNEL);
    assert!(second);
    assert_eq!(first, !second);
    assert!(!model.is_monitored(GUILD, CHANNEL));
}

#[test]
fn toggle_keeps_history() {
    let mut model = monitored_model();
    model.set_guild_ttl(GUILD, 1_000);
    let r = model.insert_message(Some(GUILD), CHANNEL, false, false, "hello", 0);
    assert_eq!(r, Ok(MessageAccepted::Nominal));
    // Toggling off and on again does not clear the seen table.
    assert!(model.toggle_monitor(GUILD, CHANNEL));
    assert!(!model.toggle_monitor(GUILD, CHANNEL));
    let r = model.insert_message(Some(GUILD), CHANNEL, false, false, "hello", 500);
    assert_eq!(r, Err(MessageRejected::Text));
}

#[test]
fn window_blocks_and_expires() {
    let mut model = monitored_model();
    model.set_guild_ttl(GUILD, 1_000);
    let r = model.insert_message(Some(GUILD), CHANNEL, false, false, "hello", 0);
    assert_eq!(r, Ok(MessageAccepted::Nominal));
    let r = model.insert_message(Some(GUILD), CHANNEL, false, false, "hello", 500);
    assert_eq!(r, Err(MessageRejected::Text));
    let r = model.insert_message(Some(GUILD), CHANNEL, false, false, "hello", 2_000);
    assert_eq!(r, Ok(MessageAccepted::Nominal));
}

#[test]
fn rejection_does_not_refresh_the_window() {
    let mut model = monitored_model();
    model.set_guild_ttl(GUILD, 1_000);
    assert_eq!(
        model.insert_message(Some(GUILD), CHANNEL, false, false, "hello", 0),
        Ok(MessageAccepted::Nominal)
    );
    assert_eq!(
        model.insert_message(Some(GUILD), CHANNEL, false, false, "hello", 600),
        Err(MessageRejected::Text)
    );
    // Had the rejection at 600 re-stamped the record, 1200 would still be
    // inside the window; it is accepted because only the record at 0 counts.
    assert_eq!(
        model.insert_message(Some(GUILD), CHANNEL, false, false, "hello", 1_200),
        Ok(MessageAccepted::Nominal)
    );
}

#[test]
fn racing_duplicates_accept_exactly_one() {
    let mut model = monitored_model();
    let first = model.insert_message(Some(GUILD), CHANNEL, false, false, "fresh text", 7);
    let second = model.insert_message(Some(GUILD), CHANNEL, false, false, "fresh text", 7);
    assert_eq!(first, Ok(MessageAccepted::Nominal));
    assert_eq!(second, Err(MessageRejected::Text));
}

#[test]
fn normalized_duplicates_are_rejected() {
    let mut model = monitored_model();
    assert_eq!(
        model.insert_message(Some(GUILD), CHANNEL, false, false, "Hello, World!!", 0),
        Ok(MessageAccepted::Nominal)
    );
    assert_eq!(
        model.insert_message(Some(GUILD), CHANNEL, false, false, "hello world", 1),
        Err(MessageRejected::Text)
    );
}

#[test]
fn distinct_content_is_not_rejected() {
    let mut model = monitored_model();
    assert_eq!(
        model.insert_message(Some(GUILD), CHANNEL, false, false, "one", 0),
        Ok(MessageAccepted::Nominal)
    );
    assert_eq!(
        model.insert_message(Some(GUILD), CHANNEL, false, false, "two", 1),
        Ok(MessageAccepted::Nominal)
    );
}

#[test]
fn communities_are_independent() {
    let mut model = monitored_model();
    let other: u64 = 99;
    model.toggle_monitor(other, CHANNEL);
    assert_eq!(
        model.insert_message(Some(GUILD), CHANNEL, false, false, "hello", 0),
        Ok(MessageAccepted::Nominal)
    );
    // The same text in another community is new there.
    assert_eq!(
        model.insert_message(Some(other), CHANNEL, false, false, "hello", 1),
        Ok(MessageAccepted::Nominal)
    );
}

#[test]
fn init_guild_is_idempotent_and_lazy() {
    let mut model = MessageModel::default();
    model.init_guild(GUILD);
    model.init_guild(GUILD);
    assert!(!model.is_monitored(GUILD, CHANNEL));
    let saved = model.save_all();
    assert_eq!(saved.len(), 1);
}
