use tellbot::clock::Timestamp;
use tellbot::message::{Activation, Message};
use tellbot::message_store::{MessageStore, StoreError, StoredFile};
use tellbot::scheduler::{finish_delivery, next_delivery_step, DeliveryStep};
use tellbot::clock::Duration;

fn msg(id: &str, recipient: &str, activation: Activation) -> Message {
    Message::with_id(
        id.to_string(),
        activation,
        "author".to_string(),
        recipient,
        "chan".to_string(),
        Timestamp::from_unix_seconds(0),
        format!("text {}", id),
    )
}

fn fixed(t: i64) -> Activation {
    Activation::Fixed(Timestamp::from_unix_seconds(t))
}

fn ids(ms: &[Message]) -> Vec<String> {
    let mut v: Vec<String> = ms.iter().map(|m| m.id().to_string()).collect();
    v.sort();
    v
}

#[test]
fn insert_and_get_all() {
    let mut store = MessageStore::new("store.ron".to_string());
    store.insert(msg("a", "bob", Activation::OnNextMessage));
    store.insert(msg("b", "ann", fixed(10)));
    assert_eq!(store.len(), 2);
    assert_eq!(ids(&store.get_all()), vec!["a", "b"]);
    assert_eq!(store.path(), "store.ron");
}

#[test]
fn insert_same_id_overwrites() {
    let mut store = MessageStore::new(String::new());
    store.insert(msg("a", "bob", Activation::OnNextMessage));
    store.insert(msg("a", "ann", fixed(5)));
    let all = store.get_all();
    assert_eq!(all.len(), 1);
    assert_eq!(all[0].recipient(), "ann");
    assert_eq!(*all[0].activation(), fixed(5));
}

#[test]
fn pop_pending_takes_only_next_message_notes() {
    let mut store = MessageStore::new(String::new());
    store.insert(msg("a", "bob", Activation::OnNextMessage));
    store.insert(msg("b", "bob", fixed(10)));
    store.insert(msg("c", "ann", Activation::OnNextMessage));
    store.insert(msg("d", "bob", Activation::OnNextMessage));
    let popped = store.pop_pending("bob");
    assert_eq!(ids(&popped), vec!["a", "d"]);
    assert!(popped.iter().all(|m| *m.activation() == Activation::OnNextMessage));
    assert_eq!(ids(&store.get_all()), vec!["b", "c"]);
    assert!(store.pop_pending("bob").is_empty());
    assert!(store.pop_pending("nobody").is_empty());
}

#[test]
fn recipient_is_case_insensitive() {
    let mut store = MessageStore::new(String::new());
    store.insert(msg("a", "Foo", Activation::OnNextMessage));
    assert_eq!(store.get_all()[0].recipient(), "foo");
    let popped = store.pop_pending("FOO");
    assert_eq!(ids(&popped), vec!["a"]);
    store.insert(msg("b", "foo", Activation::OnNextMessage));
    assert_eq!(ids(&store.pop_pending("Foo")), vec!["b"]);
}

#[test]
fn remove_twice() {
    let mut store = MessageStore::new(String::new());
    store.insert(msg("a", "bob", Activation::OnNextMessage));
    store.insert(msg("b", "bob", Activation::OnNextMessage));
    let probe = Message::from_id("a".to_string());
    assert!(store.remove(&probe));
    assert!(!store.remove(&probe));
    assert_eq!(ids(&store.get_all()), vec!["b"]);
}

#[test]
fn remove_for_checks_bucket() {
    let mut store = MessageStore::new(String::new());
    store.insert(msg("a", "bob", Activation::OnNextMessage));
    let probe = Message::from_id("a".to_string());
    assert!(!store.remove_for("ann", &probe));
    assert!(store.contains(&probe));
    assert!(store.remove_for("Bob", &probe));
    assert!(!store.contains(&probe));
}

#[test]
fn save_then_load_round_trip() {
    let mut store = MessageStore::new("p".to_string());
    store.insert(msg("a", "bob", Activation::OnNextMessage));
    store.insert(msg("b", "ann", fixed(42)));
    store.insert(msg("c", "bob", fixed(7)));
    let mut saved = store.get_all();
    saved.reverse();
    let loaded = MessageStore::from_path("p".to_string(), StoredFile::Records(saved)).unwrap();
    let mut before = store.get_all();
    let mut after = loaded.get_all();
    before.sort_by(|x, y| x.id().cmp(y.id()));
    after.sort_by(|x, y| x.id().cmp(y.id()));
    assert_eq!(before.len(), after.len());
    for (x, y) in before.iter().zip(after.iter()) {
        assert_eq!(x.id(), y.id());
        assert_eq!(x.recipient(), y.recipient());
        assert_eq!(x.activation(), y.activation());
        assert_eq!(x.text(), y.text());
        assert_eq!(x.author(), y.author());
        assert_eq!(x.channel(), y.channel());
        assert_eq!(x.created(), y.created());
    }
}

#[test]
fn load_outcomes() {
    let empty = MessageStore::from_path("p".to_string(), StoredFile::Missing).unwrap();
    assert_eq!(empty.len(), 0);
    assert_eq!(
        MessageStore::from_path("p".to_string(), StoredFile::Directory).err(),
        Some(StoreError::PathIsDirectory)
    );
    assert_eq!(
        MessageStore::from_path("p".to_string(), StoredFile::Corrupt).err(),
        Some(StoreError::Corrupt)
    );
    assert_eq!(
        MessageStore::from_path("p".to_string(), StoredFile::Unreadable).err(),
        Some(StoreError::Persistence)
    );
}

#[test]
fn load_keeps_last_of_duplicate_ids() {
    let records = vec![msg("a", "bob", Activation::OnNextMessage), msg("a", "ann", fixed(1))];
    let store = MessageStore::from_messages(String::new(), records);
    let all = store.get_all();
    assert_eq!(all.len(), 1);
    assert_eq!(all[0].recipient(), "ann");
}

#[test]
fn scheduled_lists_fixed_messages() {
    let mut store = MessageStore::new(String::new());
    store.insert(msg("a", "bob", Activation::OnNextMessage));
    store.insert(msg("b", "bob", fixed(10)));
    store.insert(msg("c", "ann", fixed(20)));
    assert_eq!(ids(&store.scheduled()), vec!["b", "c"]);
}

#[test]
fn delivery_steps() {
    let mut store = MessageStore::new(String::new());
    let m = msg("a", "bob", fixed(100));
    store.insert(m.clone());
    let now = Timestamp::from_unix_seconds(40);
    assert_eq!(next_delivery_step(&store, &m, now), DeliveryStep::Wait(Duration::seconds(60)));
    let later = Timestamp::from_unix_seconds(100);
    assert_eq!(next_delivery_step(&store, &m, later), DeliveryStep::Deliver);
    let p = msg("p", "bob", Activation::OnNextMessage);
    store.insert(p.clone());
    assert_eq!(next_delivery_step(&store, &p, later), DeliveryStep::Skip);
    assert!(!finish_delivery(&mut store, &m, false));
    assert!(store.contains(&m));
    store.remove(&m);
    assert_eq!(next_delivery_step(&store, &m, later), DeliveryStep::Skip);
}

#[test]
fn two_deadlines_in_one_tick() {
    let mut store = MessageStore::new(String::new());
    let a = msg("a", "bob", fixed(50));
    let b = msg("b", "ann", fixed(50));
    store.insert(a.clone());
    store.insert(b.clone());
    store.insert(msg("c", "ann", Activation::OnNextMessage));
    let tick = Timestamp::from_unix_seconds(50);
    assert_eq!(next_delivery_step(&store, &a, tick), DeliveryStep::Deliver);
    assert_eq!(next_delivery_step(&store, &b, tick), DeliveryStep::Deliver);
    assert!(finish_delivery(&mut store, &a, true));
    assert!(finish_delivery(&mut store, &b, true));
    assert_eq!(ids(&store.get_all()), vec!["c"]);
}

#[test]
fn message_equality_is_by_id() {
    let x = msg("same", "bob", Activation::OnNextMessage);
    let y = msg("same", "ann", fixed(3));
    let z = msg("other", "bob", Activation::OnNextMessage);
    assert!(x == y);
    assert!(x != z);
    assert!(x.same_id(&y));
}

#[test]
fn unicode_buckets_fold_case() {
    let mut store = MessageStore::new(String::new());
    store.insert(msg("a", "ä", Activation::OnNextMessage));
    assert_eq!(ids(&store.pop_pending("Ä")), vec!["a"]);
    store.insert(msg("b", "Ä", Activation::OnNextMessage));
    assert_eq!(store.get_all()[0].recipient(), "ä");
    assert_eq!(ids(&store.pop_pending("ä")), vec!["b"]);
    store.insert(msg("c", "Ωmega", Activation::OnNextMessage));
    let probe = Message::from_id("c".to_string());
    assert!(store.remove_for("ΩMEGA", &probe));
}
