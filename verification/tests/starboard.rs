//! The starboard engine driven through whole scenarios: configuration,
//! promotion over the threshold, count edits, demotion, and the claim-check
//! that keeps concurrent events from posting a second mirror.

use blahaj::starboard::{message_link, star_footer, AddAction, RemoveAction, StarboardStore};

const GUILD: u64 = 10;
const BOARD_CHANNEL: u64 = 99;
const SOURCE_CHANNEL: u64 = 5;
const MESSAGE: u64 = 1234;

fn configured_store() -> StarboardStore {
    let mut store = StarboardStore::new();
    store.starboard_enable(GUILD, BOARD_CHANNEL, Some(3));
    store
}

#[test]
fn enable_clamps_the_threshold_and_config_reads_back() {
    let mut store = StarboardStore::new();
    assert_eq!(store.starboard_config(GUILD), None);
    store.starboard_enable(GUILD, BOARD_CHANNEL, None);
    assert_eq!(store.starboard_config(GUILD), Some((BOARD_CHANNEL, 3)));
    store.starboard_enable(GUILD, BOARD_CHANNEL, Some(1000));
    assert_eq!(store.starboard_config(GUILD), Some((BOARD_CHANNEL, 100)));
    store.starboard_enable(GUILD, BOARD_CHANNEL, Some(-4));
    assert_eq!(store.starboard_config(GUILD), Some((BOARD_CHANNEL, 1)));
    store.starboard_disable(GUILD);
    assert_eq!(store.starboard_config(GUILD), None);
}

#[test]
fn precheck_gates_on_emoji_guild_and_config() {
    let store = configured_store();
    assert_eq!(
        store.reaction_precheck("\u{2b50}", Some(GUILD)),
        Some((BOARD_CHANNEL, 3))
    );
    assert_eq!(store.reaction_precheck("\u{1f41f}", Some(GUILD)), None);
    assert_eq!(store.reaction_precheck("\u{2b50}", None), None);
    assert_eq!(store.reaction_precheck("\u{2b50}", Some(GUILD + 1)), None);
}

#[test]
fn end_to_end_promotion_edit_and_demotion() {
    let mut store = configured_store();
    let (channel, threshold) = store.reaction_precheck("\u{2b50}", Some(GUILD)).unwrap();
    assert_eq!((channel, threshold), (BOARD_CHANNEL, 3));

    // Third star: the message is promoted and a mirror send is requested.
    let action = store.reaction_add_apply(
        GUILD,
        SOURCE_CHANNEL,
        MESSAGE,
        channel,
        threshold,
        false,
        3,
    );
    assert_eq!(action, AddAction::Send);
    assert_eq!(star_footer(3), "\u{2b50} 3");
    store.record_send_outcome(MESSAGE, Some(555), 3);

    // Fourth star: the existing mirror is edited, no second send.
    let action = store.reaction_add_apply(
        GUILD,
        SOURCE_CHANNEL,
        MESSAGE,
        channel,
        threshold,
        false,
        4,
    );
    assert_eq!(action, AddAction::Edit { mirror_id: 555 });
    assert_eq!(star_footer(4), "\u{2b50} 4");

    // Two stars removed: the mirror is deleted and the row goes away.
    let action = store.reaction_remove_apply(MESSAGE, threshold, 2);
    assert_eq!(action, RemoveAction::DeleteMirror { mirror_id: 555 });
    store.record_delete_outcome(MESSAGE, true, 2);

    // The tracking row is gone: a fresh promotion sends again.
    let action = store.reaction_add_apply(
        GUILD,
        SOURCE_CHANNEL,
        MESSAGE,
        channel,
        threshold,
        false,
        3,
    );
    assert_eq!(action, AddAction::Send);
}

#[test]
fn repeated_events_never_request_a_second_mirror() {
    let mut store = configured_store();
    let first = store.reaction_add_apply(GUILD, SOURCE_CHANNEL, MESSAGE, BOARD_CHANNEL, 3, false, 3);
    assert_eq!(first, AddAction::Send);

    // While the send is in flight, a repeated event does nothing.
    let repeat = store.reaction_add_apply(GUILD, SOURCE_CHANNEL, MESSAGE, BOARD_CHANNEL, 3, false, 3);
    assert_eq!(repeat, AddAction::Nothing);

    // Once the mirror exists, a repeated event only edits it.
    store.record_send_outcome(MESSAGE, Some(777), 3);
    let repeat = store.reaction_add_apply(GUILD, SOURCE_CHANNEL, MESSAGE, BOARD_CHANNEL, 3, false, 3);
    assert_eq!(repeat, AddAction::Edit { mirror_id: 777 });
}

#[test]
fn failed_send_releases_the_claim_for_the_next_event() {
    let mut store = configured_store();
    assert_eq!(
        store.reaction_add_apply(GUILD, SOURCE_CHANNEL, MESSAGE, BOARD_CHANNEL, 3, false, 3),
        AddAction::Send
    );
    store.record_send_outcome(MESSAGE, None, 3);
    // The claim was released, so the next event retries the send.
    assert_eq!(
        store.reaction_add_apply(GUILD, SOURCE_CHANNEL, MESSAGE, BOARD_CHANNEL, 3, false, 3),
        AddAction::Send
    );
}

#[test]
fn bot_messages_in_the_starboard_channel_never_spawn_mirrors() {
    let mut store = configured_store();
    let action = store.reaction_add_apply(
        GUILD,
        BOARD_CHANNEL,
        MESSAGE,
        BOARD_CHANNEL,
        3,
        true,
        50,
    );
    assert_eq!(action, AddAction::Nothing);
    // A bot message outside the starboard channel is still fair game.
    let action = store.reaction_add_apply(
        GUILD,
        SOURCE_CHANNEL,
        MESSAGE,
        BOARD_CHANNEL,
        3,
        true,
        50,
    );
    assert_eq!(action, AddAction::Send);
}

#[test]
fn below_threshold_events_do_nothing() {
    let mut store = configured_store();
    assert_eq!(
        store.reaction_add_apply(GUILD, SOURCE_CHANNEL, MESSAGE, BOARD_CHANNEL, 3, false, 2),
        AddAction::Nothing
    );
    // No tracking row exists, so a removal event does nothing either.
    assert_eq!(
        store.reaction_remove_apply(MESSAGE, 3, 1),
        RemoveAction::Nothing
    );
}

#[test]
fn failed_mirror_delete_keeps_the_row() {
    let mut store = configured_store();
    assert_eq!(
        store.reaction_add_apply(GUILD, SOURCE_CHANNEL, MESSAGE, BOARD_CHANNEL, 3, false, 3),
        AddAction::Send
    );
    store.record_send_outcome(MESSAGE, Some(888), 3);
    assert_eq!(
        store.reaction_remove_apply(MESSAGE, 3, 2),
        RemoveAction::DeleteMirror { mirror_id: 888 }
    );
    // The gateway delete failed: the row stays, the next removal retries.
    store.record_delete_outcome(MESSAGE, false, 2);
    assert_eq!(
        store.reaction_remove_apply(MESSAGE, 3, 1),
        RemoveAction::DeleteMirror { mirror_id: 888 }
    );
}

#[test]
fn removal_above_threshold_edits_the_mirror() {
    let mut store = configured_store();
    store.reaction_add_apply(GUILD, SOURCE_CHANNEL, MESSAGE, BOARD_CHANNEL, 3, false, 5);
    store.record_send_outcome(MESSAGE, Some(444), 5);
    assert_eq!(
        store.reaction_remove_apply(MESSAGE, 3, 4),
        RemoveAction::Edit { mirror_id: 444 }
    );
}

#[test]
fn permalinks_point_back_at_the_source_message() {
    assert_eq!(
        message_link(1, 2, 3),
        "https://discord.com/channels/1/2/3"
    );
    assert_eq!(
        message_link(10, 5, 1234),
        "https://discord.com/channels/10/5/1234"
    );
}
