use tellbot::clock::{timestamp_text, Duration, Timestamp};
use tellbot::commands::{
    cancel, parse_command, pending_reply, split_chunks, tell, tell_reply, CancelOutcome, Command,
    TellError,
};
use tellbot::display::{format_duration, format_num, format_short_num};
use tellbot::message::{Activation, Message};
use tellbot::message_parser;
use tellbot::message_store::MessageStore;

fn msg(id: &str, recipient: &str, author: &str, created: i64, text: &str) -> Message {
    Message::with_id(
        id.to_string(),
        Activation::OnNextMessage,
        author.to_string(),
        recipient,
        "chan".to_string(),
        Timestamp::from_unix_seconds(created),
        text.to_string(),
    )
}

#[test]
fn short_numbers() {
    assert_eq!(format_short_num(0, "y"), "");
    assert_eq!(format_short_num(12, "d"), "12d");
    assert_eq!(format_short_num(-3, "s"), "-3s");
}

#[test]
fn counted_nouns() {
    assert_eq!(format_num(0, "reminder", "reminders"), "");
    assert_eq!(format_num(1, "reminder", "reminders"), "1 reminder");
    assert_eq!(format_num(7, "reminder", "reminders"), "7 reminders");
    assert_eq!(format_num(120, "x", "xs"), "120 xs");
}

#[test]
fn elapsed_times() {
    assert_eq!(format_duration(Duration::seconds(0)), "ago");
    assert_eq!(format_duration(Duration::seconds(5)), "5s ago");
    assert_eq!(format_duration(Duration::seconds(3_725)), "1h 2m 5s ago");
    assert_eq!(format_duration(Duration::seconds(90_000)), "1d 1h ago");
    assert_eq!(format_duration(Duration::seconds(400 * 86_400)), "1y 400d ago");
}

#[test]
fn rendered_message() {
    let m = msg("a", "bob", "ann", 1_000, "hi there");
    assert_eq!(m.render(Timestamp::from_unix_seconds(1_065)), "ann (1m 5s ago): hi there");
    assert_eq!(m.render(Timestamp::from_unix_seconds(935)), "ann (1m 5s ago): hi there");
}

#[test]
fn tell_reply_to_self_ignores_case() {
    let me = vec![msg("x9", "Änna", "x", 0, "t")];
    assert_eq!(me[0].recipient(), "änna");
    assert_eq!(tell_reply(&me, "ÄNNA"), "I'll remind you the next time you type in chat [x9]");
}

#[test]
fn commands_by_prefix() {
    assert_eq!(parse_command("~tell"), Some(Command::Tell));
    assert_eq!(parse_command("~cancel"), Some(Command::Cancel));
    assert_eq!(parse_command("~bot"), Some(Command::Bot));
    assert_eq!(parse_command("~what"), Some(Command::Unknown));
    assert_eq!(parse_command("~"), Some(Command::Unknown));
    assert_eq!(parse_command("tell"), None);
    assert_eq!(parse_command(""), None);
}

#[test]
fn tell_checks_text() {
    assert_eq!(tell("", "ann", "chan").err(), Some(TellError::Empty));
    let long = format!("bob {}", "x".repeat(300));
    assert_eq!(tell(&long, "ann", "chan").err(), Some(TellError::TooLong));
    assert_eq!(
        tell("bob", "ann", "chan").err(),
        Some(TellError::Parse(message_parser::Error::EmptyBody))
    );
    let ms = tell("cc:me bob see you", "Ann", "chan").unwrap();
    let rs: Vec<&str> = ms.iter().map(|m| m.recipient()).collect();
    assert_eq!(rs, vec!["bob", "ann"]);
    assert!(ms.iter().all(|m| m.text() == "see you"));
}

#[test]
fn tell_replies() {
    let one = vec![msg("x1", "bob", "ann", 0, "t")];
    assert_eq!(tell_reply(&one, "ann"), "I'll remind bob when they next type in chat [x1]");
    let me = vec![msg("x2", "ann", "ann", 0, "t")];
    assert_eq!(tell_reply(&me, "Ann"), "I'll remind you the next time you type in chat [x2]");
    let two = vec![msg("x3", "bob", "ann", 0, "t"), msg("x4", "cat", "ann", 0, "t")];
    assert_eq!(tell_reply(&two, "ann"), "I'll remind bob [x3], cat [x4] next time they type in chat");
}

#[test]
fn cancel_outcomes() {
    let mut store = MessageStore::new(String::new());
    store.insert(msg("k1", "ann", "ann", 0, "t"));
    assert_eq!(cancel(&mut store, "ann", None), CancelOutcome::MissingId);
    assert_eq!(cancel(&mut store, "bob", Some("k1")), CancelOutcome::NotFound);
    assert_eq!(cancel(&mut store, "ann", Some("k1")), CancelOutcome::Removed);
    assert_eq!(cancel(&mut store, "ann", Some("k1")), CancelOutcome::NotFound);
    assert_eq!(CancelOutcome::MissingId.reply(), "Error: Missing id");
    assert_eq!(CancelOutcome::Removed.reply(), "Removed messsage");
    assert_eq!(
        CancelOutcome::NotFound.reply(),
        "You do not have a reminder to yourself with that id"
    );
}

#[test]
fn pending_replies() {
    let ms = vec![msg("a", "bob", "ann", 0, "one"), msg("b", "bob", "cat", 50, "two")];
    let now = Timestamp::from_unix_seconds(60);
    assert_eq!(
        pending_reply("Bob", &ms, now),
        "@Bob 2 reminders: ann (1m ago): one - cat (10s ago): two"
    );
    let single = vec![msg("a", "bob", "ann", 0, "one")];
    assert_eq!(pending_reply("Bob", &single, now), "@Bob 1 reminder: ann (1m ago): one");
}

#[test]
fn reply_chunks() {
    assert_eq!(split_chunks("abcdefg", 3), vec!["abc", "def", "g"]);
    assert_eq!(split_chunks("abcdef", 3), vec!["abc", "def"]);
    assert!(split_chunks("", 3).is_empty());
    let long = "é".repeat(451);
    let parts = split_chunks(&long, 450);
    assert_eq!(parts.len(), 2);
    assert_eq!(parts[0].chars().count(), 450);
    assert_eq!(parts[1], "é");
}

#[test]
fn timestamp_texts() {
    let t = timestamp_text(Timestamp::from_unix_seconds(86_400)).unwrap();
    assert!(t.starts_with("1970-01-02"));
    assert_eq!(timestamp_text(Timestamp::from_unix_seconds(i64::MAX)), None);
}

#[test]
fn new_messages_get_ids() {
    let a = Message::new(Activation::OnNextMessage, "ann".to_string(), "Bob", "chan".to_string(), "hi".to_string());
    let b = Message::from_id("fixed-id".to_string());
    assert!(!a.id().is_empty());
    assert_eq!(a.recipient(), "bob");
    assert_eq!(b.id(), "fixed-id");
    let d = Message::default();
    assert!(!d.id().is_empty());
    assert_eq!(*d.activation(), Activation::OnNextMessage);
}
