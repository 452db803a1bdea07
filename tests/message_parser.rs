use std::collections::HashSet;

use tellbot::clock::{Duration, Timestamp, LATEST_UNIX_SECONDS};
use tellbot::duration_parser;
use tellbot::message::Activation;
use tellbot::message_parser::{Error, MessageDefinition, Schedule};

fn set_of(def: &MessageDefinition) -> HashSet<String> {
    def.recipients.iter().cloned().collect()
}

#[test]
fn parse_empty() {
    assert!("".parse::<MessageDefinition>().is_err())
}

#[test]
fn parse_simple() {
    let def = "recipient actual message"
        .parse::<MessageDefinition>()
        .unwrap();

    assert_eq!(HashSet::from([String::from("recipient")]), set_of(&def));
    assert_eq!("actual message", &def.text);
    assert_eq!(Schedule::Unscheduled, def.schedule);
}

#[test]
fn parse_with_cc_attribute() {
    let def = "cc:\"other\" cc:foo recipient actual message"
        .parse::<MessageDefinition>()
        .unwrap();

    assert_eq!(
        ["other", "foo", "recipient"]
            .into_iter()
            .map(|s| s.to_string())
            .collect::<HashSet<_>>(),
        set_of(&def)
    );
    assert_eq!("actual message", &def.text);
    assert_eq!(Schedule::Unscheduled, def.schedule);
}

#[test]
fn test_uppercase() {
    let def = "cc:\"other\" cc:Foo recIpient actual message"
        .parse::<MessageDefinition>()
        .unwrap();

    assert_eq!(
        ["other", "foo", "recipient"]
            .into_iter()
            .map(|s| s.to_string())
            .collect::<HashSet<_>>(),
        set_of(&def)
    );
    assert_eq!("actual message", &def.text);
    assert_eq!(Schedule::Unscheduled, def.schedule);
}

#[test]
fn message_definition_into_messages() {
    let def = MessageDefinition {
        text: "this is text".to_string(),
        created: Timestamp::from_unix_seconds(0),
        schedule: Schedule::Unscheduled,
        recipients: ["foo".to_string(), "bar".to_string()].into(),
    };

    assert_eq!(
        vec!["foo", "bar"],
        def.into_messages("me", "channel")
            .into_iter()
            .map(|message| message.recipient().to_string())
            .collect::<Vec<_>>()
    );
}

#[test]
fn cc_and_bare_recipient_scenario() {
    let def = MessageDefinition::parse("cc:\"alice\" cc:bob carol hello there").unwrap();
    assert_eq!(def.recipients, vec!["alice", "bob", "carol"]);
    assert_eq!(def.text, "hello there");
    assert_eq!(def.schedule, Schedule::Unscheduled);
}

#[test]
fn relative_schedule_scenario() {
    let def = MessageDefinition::parse("in:1h30m remind me later").unwrap();
    assert_eq!(def.schedule, Schedule::Relative(Duration::seconds(5400)));
    assert_eq!(def.recipients, vec!["remind"]);
    assert_eq!(def.text, "me later");
}

#[test]
fn quoted_duration_is_lowercased() {
    let def = MessageDefinition::parse("in:\"1D 2H\" bob hi").unwrap();
    assert_eq!(def.schedule, Schedule::Relative(Duration::seconds(86_400 + 7_200)));
}

#[test]
fn empty_input_is_rejected() {
    assert_eq!(MessageDefinition::parse("").unwrap_err(), Error::Grammar);
    assert_eq!(MessageDefinition::parse("   ").unwrap_err(), Error::Grammar);
    assert_eq!(MessageDefinition::parse("cc:bob").unwrap_err(), Error::Grammar);
}

#[test]
fn missing_body_is_rejected() {
    assert_eq!(MessageDefinition::parse("bob").unwrap_err(), Error::EmptyBody);
    assert_eq!(MessageDefinition::parse("  bob   ").unwrap_err(), Error::EmptyBody);
}

#[test]
fn unknown_attribute() {
    assert_eq!(
        MessageDefinition::parse("at:noon bob hi").unwrap_err(),
        Error::UnknownAttributeKey("at".to_string())
    );
}

#[test]
fn bad_duration() {
    assert_eq!(
        MessageDefinition::parse("in:soon bob hi").unwrap_err(),
        Error::ParseDuration(duration_parser::Error::Grammar)
    );
    assert_eq!(
        MessageDefinition::parse("in:1dx bob hi").unwrap_err(),
        Error::ParseDuration(duration_parser::Error::DanglingChars("x".to_string()))
    );
}

#[test]
fn malformed_attributes() {
    assert_eq!(MessageDefinition::parse("cc:\"open bob hi").unwrap_err(), Error::Grammar);
    assert_eq!(MessageDefinition::parse("cc:\"a\"b bob hi").unwrap_err(), Error::Grammar);
    assert_eq!(MessageDefinition::parse("cc: bob hi").unwrap_err(), Error::Grammar);
    assert_eq!(MessageDefinition::parse("cc:\"\" bob hi").unwrap_err(), Error::Grammar);
}

#[test]
fn text_keeps_inner_whitespace() {
    let def = MessageDefinition::parse("  bob   one  two   ").unwrap();
    assert_eq!(def.text, "one  two");
    assert_eq!(def.recipients, vec!["bob"]);
}

#[test]
fn duplicate_recipients_collapse() {
    let def = MessageDefinition::parse("cc:Bob cc:bob BOB hi").unwrap();
    assert_eq!(def.recipients, vec!["bob"]);
}

#[test]
fn me_resolves_to_author() {
    let def = MessageDefinition::parse("cc:me bob hello").unwrap();
    let messages = def.into_messages("Alice", "chan");
    let recipients: Vec<String> = messages.iter().map(|m| m.recipient().to_string()).collect();
    assert_eq!(recipients, vec!["bob", "alice"]);
    for m in &messages {
        assert_eq!(m.text(), "hello");
        assert_eq!(m.author(), "Alice");
        assert_eq!(m.channel(), "chan");
        assert_eq!(*m.activation(), Activation::OnNextMessage);
    }
    assert_ne!(messages[0].id(), messages[1].id());
}

#[test]
fn me_alone_goes_to_author() {
    let def = MessageDefinition::parse("me remember").unwrap();
    let messages = def.into_messages("carol", "chan");
    assert_eq!(messages.len(), 1);
    assert_eq!(messages[0].recipient(), "carol");
}

#[test]
fn schedule_to_activation() {
    let now = Timestamp::from_unix_seconds(1_000);
    assert_eq!(Schedule::Unscheduled.to_activation(now), Activation::OnNextMessage);
    assert_eq!(
        Schedule::Relative(Duration::seconds(60)).to_activation(now),
        Activation::Fixed(Timestamp::from_unix_seconds(1_060))
    );
    let t = Timestamp::from_unix_seconds(5);
    assert_eq!(Schedule::Fixed(t).to_activation(now), Activation::Fixed(t));
    assert_eq!(
        Schedule::Relative(Duration::seconds(u64::MAX)).to_activation(now),
        Activation::Fixed(Timestamp::from_unix_seconds(LATEST_UNIX_SECONDS))
    );
}

#[test]
fn expansion_at_fixed_time() {
    let def = MessageDefinition::parse("in:2m bob ping").unwrap();
    let created = def.created;
    let messages = def.into_messages_at("ann", "chan", Timestamp::from_unix_seconds(100));
    assert_eq!(messages.len(), 1);
    assert_eq!(*messages[0].activation(), Activation::Fixed(Timestamp::from_unix_seconds(220)));
    assert_eq!(messages[0].created(), created);
}

#[test]
fn unicode_recipients_are_lowercased() {
    let def = MessageDefinition::parse("Ä hi").unwrap();
    assert_eq!(def.recipients, vec!["ä"]);
    let def = MessageDefinition::parse("cc:ÉLODIE Ä hi").unwrap();
    assert_eq!(def.recipients, vec!["élodie", "ä"]);
}

#[test]
fn hand_built_recipients_are_folded() {
    let def = MessageDefinition {
        text: "note".to_string(),
        created: Timestamp::from_unix_seconds(0),
        schedule: Schedule::Unscheduled,
        recipients: vec!["Me".to_string(), "BOB".to_string(), "bob".to_string()],
    };
    let recipients: Vec<String> = def
        .into_messages("Carol", "chan")
        .iter()
        .map(|m| m.recipient().to_string())
        .collect();
    assert_eq!(recipients, vec!["bob", "carol"]);
}

#[test]
fn resolved_recipients_keep_author_once() {
    let def = MessageDefinition {
        text: "note".to_string(),
        created: Timestamp::from_unix_seconds(0),
        schedule: Schedule::Unscheduled,
        recipients: vec!["carol".to_string(), "me".to_string()],
    };
    assert_eq!(def.resolved_recipients("Carol"), vec!["carol"]);
}

#[test]
fn deadlines_stop_at_the_last_calendar_second() {
    let near_end = Timestamp::from_unix_seconds(LATEST_UNIX_SECONDS - 10);
    assert_eq!(
        Schedule::Relative(Duration::seconds(5)).to_activation(near_end),
        Activation::Fixed(Timestamp::from_unix_seconds(LATEST_UNIX_SECONDS - 5))
    );
    assert_eq!(
        Schedule::Relative(Duration::seconds(20)).to_activation(near_end),
        Activation::Fixed(Timestamp::from_unix_seconds(LATEST_UNIX_SECONDS))
    );
    let def = MessageDefinition::parse("in:10000y bob far").unwrap();
    let m = def.into_messages_at("ann", "chan", Timestamp::from_unix_seconds(0));
    assert_eq!(*m[0].activation(), Activation::Fixed(Timestamp::from_unix_seconds(LATEST_UNIX_SECONDS)));
}
