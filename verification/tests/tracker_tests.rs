use codewars_tracker::db::Persist;
use codewars_tracker::katas::solved_katas;
use codewars_tracker::message_parse::{is_codewars_solution, kata_name};
use codewars_tracker::types::{ChatId, ChatMessage, CodeUser, PersistError, UserId};

fn temp_db() -> sled::Db {
    sled::Config::new().temporary(true).open().unwrap()
}

fn temp_persist() -> Persist {
    Persist::new(temp_db(), temp_db())
}

fn user(id: i32, codewars_name: &str) -> CodeUser {
    CodeUser {
        username: Some(format!("user{}", id)),
        firstname: format!("First{}", id),
        telegram_id: UserId(id),
        codewars_name: codewars_name.to_string(),
    }
}

fn message(id: i32, from: i32, text: &str) -> ChatMessage {
    ChatMessage {
        id,
        text: text.to_string(),
        from: UserId(from),
    }
}

#[test]
fn classifier_accepts_full_posting() {
    assert!(is_codewars_solution("4 kyu Foo Bar https://pastebin.com/abc"));
}

#[test]
fn classifier_rejects_text_without_leading_digit() {
    assert!(!is_codewars_solution("abc https://pastebin.com/abc"));
    assert!(!is_codewars_solution(" 4 kyu Foo https://pastebin.com/abc"));
    assert!(!is_codewars_solution(""));
}

#[test]
fn classifier_accepts_digit_immediately_followed_by_link() {
    assert!(is_codewars_solution("4https://pastebin.com/x"));
}

#[test]
fn classifier_rejects_digit_between_rank_and_link() {
    assert!(!is_codewars_solution("4 kyu 2nd https://pastebin.com/x"));
}

#[test]
fn classifier_rejects_missing_link() {
    assert!(!is_codewars_solution("4 kyu Foo Bar http://pastebin.com/abc"));
    assert!(!is_codewars_solution("4 kyu Foo Bar"));
}

#[test]
fn extractor_strips_kyu_rank_and_link() {
    assert_eq!(
        kata_name("4 kyu Sum Of Two  https://pastebin.com/xyz"),
        "Sum Of Two"
    );
}

#[test]
fn extractor_strips_bare_rank_with_one_space() {
    assert_eq!(
        kata_name("5 Reverse A String https://pastebin.com/z"),
        "Reverse A String"
    );
}

#[test]
fn extractor_strips_rank_without_space_before_kyu() {
    assert_eq!(kata_name("4kyu Two Sum https://pastebin.com/ab"), "Two Sum");
}

#[test]
fn extractor_keeps_digit_when_no_rank_token_matches() {
    assert_eq!(kata_name("9https://pastebin.com/x"), "9");
}

#[test]
fn extractor_drops_everything_after_link() {
    assert_eq!(
        kata_name("4 kyu Name https://pastebin.com/xyz trailing words\nmore"),
        "Name"
    );
}

#[test]
fn extractor_is_deterministic() {
    let text = "4 kyu Sum Of Two  https://pastebin.com/xyz";
    assert_eq!(kata_name(text), kata_name(text));
}

#[test]
fn roster_register_then_list_contains_participant() {
    let mut p = temp_persist();
    let c = ChatId(7);
    p.add_user(c, user(1, "alice")).unwrap();
    let users = p.get_users(c).unwrap();
    assert_eq!(users.len(), 1);
    assert_eq!(users[0].telegram_id, UserId(1));
    assert_eq!(users[0].codewars_name, "alice");
}

#[test]
fn roster_register_twice_overwrites_whole_record() {
    let mut p = temp_persist();
    let c = ChatId(7);
    p.add_user(c, user(1, "alice")).unwrap();
    p.add_user(c, user(1, "alice_new")).unwrap();
    let users = p.get_users(c).unwrap();
    assert_eq!(users.len(), 1);
    assert_eq!(users[0].codewars_name, "alice_new");
}

#[test]
fn roster_remove_deletes_only_that_participant() {
    let mut p = temp_persist();
    let c = ChatId(7);
    p.add_user(c, user(1, "alice")).unwrap();
    p.add_user(c, user(2, "bob")).unwrap();
    p.remove_user(c, UserId(1)).unwrap();
    let users = p.get_users(c).unwrap();
    assert_eq!(users.len(), 1);
    assert_eq!(users[0].telegram_id, UserId(2));
}

#[test]
fn roster_remove_absent_is_noop() {
    let mut p = temp_persist();
    let c = ChatId(7);
    p.add_user(c, user(1, "alice")).unwrap();
    p.remove_user(c, UserId(99)).unwrap();
    assert_eq!(p.get_users(c).unwrap().len(), 1);
}

#[test]
fn roster_clear_then_list_is_empty_not_an_error() {
    let mut p = temp_persist();
    let c = ChatId(7);
    p.add_user(c, user(1, "alice")).unwrap();
    p.clear_users(c).unwrap();
    assert_eq!(p.get_users(c).unwrap().len(), 0);
}

#[test]
fn roster_list_of_unseen_chat_is_empty() {
    let p = temp_persist();
    assert_eq!(p.get_users(ChatId(123)).unwrap().len(), 0);
}

#[test]
fn roster_is_partitioned_by_chat() {
    let mut p = temp_persist();
    p.add_user(ChatId(1), user(1, "alice")).unwrap();
    assert_eq!(p.get_users(ChatId(2)).unwrap().len(), 0);
    assert_eq!(p.get_users(ChatId(1)).unwrap().len(), 1);
}

#[test]
fn roster_survives_non_ascii_strings() {
    let mut p = temp_persist();
    let c = ChatId(7);
    let u = CodeUser {
        username: None,
        firstname: "Jürgen ✓".to_string(),
        telegram_id: UserId(5),
        codewars_name: "ключик".to_string(),
    };
    p.add_user(c, u).unwrap();
    let users = p.get_users(c).unwrap();
    assert_eq!(users[0].username, None);
    assert_eq!(users[0].firstname, "Jürgen ✓");
    assert_eq!(users[0].codewars_name, "ключик");
}

#[test]
fn log_append_on_unseen_chat_creates_log() {
    let mut p = temp_persist();
    let c = ChatId(9);
    p.add_message(c, message(1, 1, "4 kyu A https://pastebin.com/a"))
        .unwrap();
    let msgs = p.get_messages(c).unwrap();
    assert_eq!(msgs.len(), 1);
    assert_eq!(msgs[0].id, 1);
}

#[test]
fn log_list_returns_entries_in_append_order() {
    let mut p = temp_persist();
    let c = ChatId(9);
    p.add_message(c, message(1, 1, "4 kyu A https://pastebin.com/a"))
        .unwrap();
    p.add_message(c, message(2, 2, "5 kyu B https://pastebin.com/b"))
        .unwrap();
    p.add_message(c, message(3, 1, "6 kyu C https://pastebin.com/c"))
        .unwrap();
    let msgs = p.get_messages(c).unwrap();
    let ids: Vec<i32> = msgs.iter().map(|m| m.id).collect();
    assert_eq!(ids, vec![1, 2, 3]);
}

#[test]
fn log_allows_duplicate_sequence_ids() {
    let mut p = temp_persist();
    let c = ChatId(9);
    p.add_message(c, message(1, 1, "4 kyu A https://pastebin.com/a"))
        .unwrap();
    p.add_message(c, message(1, 1, "4 kyu A https://pastebin.com/a"))
        .unwrap();
    assert_eq!(p.get_messages(c).unwrap().len(), 2);
}

#[test]
fn log_clear_then_append_yields_single_entry() {
    let mut p = temp_persist();
    let c = ChatId(9);
    p.add_message(c, message(1, 1, "4 kyu A https://pastebin.com/a"))
        .unwrap();
    p.add_message(c, message(2, 1, "5 kyu B https://pastebin.com/b"))
        .unwrap();
    p.clear_messages(c).unwrap();
    p.add_message(c, message(3, 1, "6 kyu C https://pastebin.com/c"))
        .unwrap();
    let msgs = p.get_messages(c).unwrap();
    assert_eq!(msgs.len(), 1);
    assert_eq!(msgs[0].id, 3);
}

#[test]
fn log_is_partitioned_by_chat() {
    let mut p = temp_persist();
    p.add_message(ChatId(1), message(1, 1, "4 kyu A https://pastebin.com/a"))
        .unwrap();
    assert_eq!(p.get_messages(ChatId(2)).unwrap().len(), 0);
}

#[test]
fn corrupt_roster_bytes_report_serialization_error() {
    let users_db = temp_db();
    let key = (42i64 as u64).to_le_bytes();
    users_db.insert(&key[..], &b"not a roster"[..]).unwrap();
    let p = Persist::new(users_db, temp_db());
    match p.get_users(ChatId(42)) {
        Err(PersistError::Serialization) => {}
        other => panic!("expected a serialization error, got {:?}", other),
    }
}

#[test]
fn corrupt_log_bytes_report_serialization_error() {
    let msgs_db = temp_db();
    let key = (7i64 as u64).to_le_bytes();
    msgs_db.insert(&key[..], &b"\x01"[..]).unwrap();
    let p = Persist::new(temp_db(), msgs_db);
    match p.get_messages(ChatId(7)) {
        Err(PersistError::Serialization) => {}
        other => panic!("expected a serialization error, got {:?}", other),
    }
}

#[test]
fn listing_collapses_same_name_under_different_ranks() {
    let msgs = vec![
        message(1, 1, "4 kyu Same Name https://pastebin.com/a"),
        message(2, 2, "5kyu Same Name https://pastebin.com/b"),
    ];
    let names = solved_katas(&msgs);
    assert_eq!(names, vec!["Same Name".to_string()]);
}

#[test]
fn listing_is_sorted_lexicographically() {
    let msgs = vec![
        message(1, 1, "4 kyu Zebra https://pastebin.com/a"),
        message(2, 1, "4 kyu Apple https://pastebin.com/b"),
        message(3, 1, "4 kyu Mango https://pastebin.com/c"),
    ];
    let names = solved_katas(&msgs);
    assert_eq!(
        names,
        vec![
            "Apple".to_string(),
            "Mango".to_string(),
            "Zebra".to_string()
        ]
    );
}

#[test]
fn listing_of_empty_log_is_empty() {
    let msgs: Vec<ChatMessage> = Vec::new();
    assert!(solved_katas(&msgs).is_empty());
}

#[test]
fn negative_chat_and_user_ids_round_trip() {
    let mut p = temp_persist();
    let c = ChatId(-1001234567890);
    p.add_user(c, user(-5, "neg")).unwrap();
    let users = p.get_users(c).unwrap();
    assert_eq!(users[0].telegram_id, UserId(-5));
    p.add_message(c, message(-3, -5, "4 kyu N https://pastebin.com/n"))
        .unwrap();
    assert_eq!(p.get_messages(c).unwrap()[0].from, UserId(-5));
}
