use chat_relay::commands::{
    help_line, resolve_positions, sort_ids, sort_rows, stored_name, stored_trigger, trigger_listing,
};
use chat_relay::connection::{IrcThreadError, StoreQueryError};
use chat_relay::listing::{listing, precedes, sort_names};
use chat_relay::message::TwitchMessageSimple;
use chat_relay::records::{TriggerRecordNoDiscord, TriggerRecordNoId};
use chat_relay::router::process;

fn row(id: i64, trigger: &str, case_sensitive: bool, regex: bool) -> TriggerRecordNoDiscord {
    TriggerRecordNoDiscord { id, trigger: trigger.to_string(), case_sensitive, regex }
}

#[test]
fn triggers_are_stored_in_lower_case_unless_case_counts() {
    assert_eq!(stored_trigger("AzureDiamond", false), "azurediamond");
    assert_eq!(stored_trigger("AzureDiamond", true), "AzureDiamond");
    assert_eq!(stored_trigger("ÄÖ", false), "äö");
}

#[test]
fn ids_are_put_in_ascending_order() {
    assert_eq!(sort_ids(&vec![5, -1, 9, 5, 0]), vec![-1, 0, 5, 5, 9]);
    assert_eq!(sort_ids(&vec![]), Vec::<i64>::new());
    assert_eq!(sort_ids(&vec![i64::MAX, i64::MIN]), vec![i64::MIN, i64::MAX]);
}

#[test]
fn positions_mean_the_ids_in_ascending_order() {
    let ids = vec![40, 10, 30];
    assert_eq!(resolve_positions(&ids, &vec![1, 3, 2]), Ok(vec![10, 40, 30]));
    assert_eq!(resolve_positions(&ids, &vec![]), Ok(vec![]));
    assert_eq!(resolve_positions(&ids, &vec![2, 2]), Ok(vec![30, 30]));
}

#[test]
fn first_position_outside_the_listing_is_reported() {
    let ids = vec![40, 10, 30];
    assert_eq!(resolve_positions(&ids, &vec![1, 4, 0]), Err(4));
    assert_eq!(resolve_positions(&ids, &vec![0, 4]), Err(0));
    assert_eq!(resolve_positions(&ids, &vec![-3]), Err(-3));
    assert_eq!(resolve_positions(&vec![], &vec![1]), Err(1));
    assert_eq!(resolve_positions(&ids, &vec![i64::MAX]), Err(i64::MAX));
}

#[test]
fn rows_are_put_in_ascending_order_of_their_ids() {
    let rows = vec![row(7, "c", false, false), row(2, "a", true, false), row(5, "b", false, true)];
    let sorted = sort_rows(&rows);
    assert_eq!(
        sorted,
        vec![row(2, "a", true, false), row(5, "b", false, true), row(7, "c", false, false)]
    );
}

#[test]
fn listing_counts_from_one_in_ascending_order_of_the_ids() {
    let rows = vec![row(7, "frog", false, false), row(2, "@is$", true, true)];
    assert_eq!(
        trigger_listing(&rows),
        "**ID 1**: `@is$` (case_sensitive: ✅, regex: ✅)\n\
         **ID 2**: `frog` (case_sensitive: ❌, regex: ❌)\n"
    );
    assert_eq!(trigger_listing(&vec![]), "");
}

#[test]
fn listing_and_positions_agree() {
    let rows = vec![row(9, "z", false, false), row(3, "y", false, false), row(6, "x", false, false)];
    let ids: Vec<i64> = rows.iter().map(|r| r.id).collect();
    let sorted = sort_rows(&rows);
    for position in 1..=3i64 {
        let meant = resolve_positions(&ids, &vec![position]).unwrap();
        assert_eq!(meant, vec![sorted[(position - 1) as usize].id]);
    }
}

#[test]
fn failed_lookup_gives_the_message_up() {
    let event =
        TwitchMessageSimple::new("c".to_string(), "bob".to_string(), "hello".to_string());
    let triggers = vec![TriggerRecordNoId {
        discord_user_id: 1,
        trigger: "hello".to_string(),
        case_sensitive: false,
        regex: false,
    }];
    assert_eq!(
        process(&event, Err(StoreQueryError), Ok(vec![])),
        Err(IrcThreadError::SqlxError(StoreQueryError))
    );
    assert_eq!(
        process(&event, Ok(triggers.clone()), Err(StoreQueryError)),
        Err(IrcThreadError::SqlxError(StoreQueryError))
    );
    let done = process(&event, Ok(triggers), Ok(vec![])).unwrap();
    assert_eq!(done.notifications.len(), 1);
    assert_eq!(done.notifications[0].receiver, 1);
    assert_eq!(done.notifications[0].message.triggers, vec![(0, 5)]);
}

#[test]
fn names_are_stored_in_lower_case() {
    assert_eq!(stored_name("SomeChannel"), "somechannel");
    assert_eq!(stored_name("already"), "already");
}

#[test]
fn help_line_names_the_command_with_its_prefix() {
    assert_eq!(help_line("frog!", "ping", "Pong!"), "`frog!ping`\t - \tPong!\n");
}

fn strings(list: &[&str]) -> Vec<String> {
    list.iter().map(|s| s.to_string()).collect()
}

#[test]
fn precedes_goes_by_the_bytes() {
    assert!(precedes("", ""));
    assert!(precedes("", "a"));
    assert!(!precedes("a", ""));
    assert!(precedes("a", "a"));
    assert!(precedes("a", "ab"));
    assert!(!precedes("ab", "a"));
    assert!(precedes("ab", "b"));
    assert!(precedes("B", "a"));
    assert!(!precedes("a", "B"));
    assert!(precedes("z", "\u{e9}"));
    for (a, b) in [("#foo", "#bar"), ("x_y", "xy"), ("", "#"), ("abc", "abd")] {
        assert_eq!(precedes(a, b), a <= b);
        assert_eq!(precedes(b, a), b <= a);
    }
}

#[test]
fn names_are_put_in_ascending_order_of_their_bytes() {
    let list = strings(&["#foo", "#bar", "#Zed", "#foo", "#ba", "#"]);
    let mut expected = list.clone();
    expected.sort();
    assert_eq!(sort_names(&list), expected);
    assert_eq!(sort_names(&vec![]), Vec::<String>::new());
}

#[test]
fn listing_joins_the_names_in_order() {
    assert_eq!(listing(&strings(&["#foo", "#bar", "#baz"])), "#bar, #baz, #foo");
    assert_eq!(listing(&strings(&["only"])), "only");
    assert_eq!(listing(&vec![]), "");
    assert_eq!(listing(&strings(&["b", "", "a"])), ", a, b");
}
