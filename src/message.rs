//! The stored note: who left it, for whom, where, when, and when it fires.

use vstd::prelude::*;
use crate::clock::{now, timestamp_text, Timestamp};
use crate::text::{lower_of, lowercase, push_signed_decimal};

verus! {

/// When a stored message becomes deliverable.
#[derive(Clone, Copy, Debug, PartialEq, Eq, Structural)]
pub enum Activation {
    /// The next time the recipient writes a chat line.
    OnNextMessage,
    /// Once the wall clock reaches the deadline.
    Fixed(Timestamp),
}

impl Default for Activation {
    fn default() -> (r: Activation)
        ensures
            r == Activation::OnNextMessage,
    {
        Activation::OnNextMessage
    }
}

/// A deferred note. Two messages are the same message when their ids are
/// equal, whatever their other fields hold.
#[derive(Debug)]
pub struct Message {
    id: String,
    activation: Activation,
    author: String,
    recipient: String,
    channel: String,
    created: Timestamp,
    text: String,
}

/// The fields of a message, as plain values.
pub struct MessageView {
    pub id: Seq<char>,
    pub activation: Activation,
    pub author: Seq<char>,
    pub recipient: Seq<char>,
    pub channel: Seq<char>,
    pub created: Timestamp,
    pub text: Seq<char>,
}

impl View for Message {
    type V = MessageView;

    closed spec fn view(&self) -> MessageView {
        MessageView {
            id: self.id@,
            activation: self.activation,
            author: self.author@,
            recipient: self.recipient@,
            channel: self.channel@,
            created: self.created,
            text: self.text@,
        }
    }
}

/// Relies on cuid::cuid1_slug: a short identifier built from the clock, a
/// process-wide counter, the host and chance; `None` where the generator
/// reports an error. A slug is never empty (it starts with two characters of
/// the timestamp); nothing else is promised of its value.
#[verifier::external_body]
fn generate_slug() -> (r: Option<String>)
    ensures
        r matches Some(s) ==> s@.len() > 0,
{
    cuid::cuid1_slug().ok()
}

/// A fresh identifier: a cuid slug, or where none can be had the text of the
/// creation time.
pub(crate) fn fresh_id(created: Timestamp) -> (r: String)
    ensures
        r@.len() > 0,
{
    match generate_slug() {
        Some(slug) => slug,
        None => match timestamp_text(created) {
            Some(t) => t,
            None => {
                let mut t = String::new();
                push_signed_decimal(&mut t, created.unix_seconds);
                t
            },
        },
    }
}

impl Message {
    /// A message with every field given; the recipient is lower-cased.
    pub fn with_id(
        id: String,
        activation: Activation,
        author: String,
        recipient: &str,
        channel: String,
        created: Timestamp,
        text: String,
    ) -> (r: Message)
        ensures
            r@ == (MessageView {
                id: id@,
                activation,
                author: author@,
                recipient: lower_of(recipient@),
                channel: channel@,
                created,
                text: text@,
            }),
            (r@.recipient.len() == 0) == (recipient@.len() == 0),
    {
        Message { id, activation, author, recipient: lowercase(recipient), channel, created, text }
    }

    /// A new message created now, under a fresh id.
    pub fn new(
        activation: Activation,
        author: String,
        recipient: &str,
        channel: String,
        text: String,
    ) -> (r: Message)
        ensures
            r@.activation == activation,
            r@.author == author@,
            r@.recipient == lower_of(recipient@),
            (r@.recipient.len() == 0) == (recipient@.len() == 0),
            r@.id.len() > 0,
            r@.channel == channel@,
            r@.text == text@,
    {
        let created = now();
        let id = fresh_id(created);
        Message::with_id(id, activation, author, recipient, channel, created, text)
    }

    /// A message that stands for the one with this id, for lookups and
    /// removal; its other fields are empty.
    pub fn from_id(id: String) -> (r: Message)
        ensures
            r@.id == id@,
            r@.activation == Activation::OnNextMessage,
            r@.author.len() == 0,
            r@.recipient.len() == 0,
            r@.channel.len() == 0,
            r@.text.len() == 0,
    {
        let created = now();
        proof {
            reveal_strlit("");
        }
        Message::with_id(id, Activation::OnNextMessage, String::new(), "", String::new(), created, String::new())
    }

    pub fn id(&self) -> (r: &str)
        ensures
            r@ == self@.id,
    {
        self.id.as_str()
    }

    pub fn activation(&self) -> (r: &Activation)
        ensures
            *r == self@.activation,
    {
        &self.activation
    }

    pub fn author(&self) -> (r: &str)
        ensures
            r@ == self@.author,
    {
        self.author.as_str()
    }

    pub fn recipient(&self) -> (r: &str)
        ensures
            r@ == self@.recipient,
    {
        self.recipient.as_str()
    }

    pub fn channel(&self) -> (r: &str)
        ensures
            r@ == self@.channel,
    {
        self.channel.as_str()
    }

    pub fn created(&self) -> (r: Timestamp)
        ensures
            r == self@.created,
    {
        self.created
    }

    pub fn text(&self) -> (r: &str)
        ensures
            r@ == self@.text,
    {
        self.text.as_str()
    }

    /// Whether both messages carry the same id.
    pub fn same_id(&self, other: &Message) -> (r: bool)
        ensures
            r == (self@.id == other@.id),
    {
        self.id == other.id
    }

    /// Whether the message belongs to the bucket whose lower-cased handle
    /// is `key`.
    pub fn in_bucket(&self, key: &String) -> (r: bool)
        ensures
            r == (lower_of(self@.recipient) == key@),
    {
        lowercase(self.recipient.as_str()) == *key
    }

    /// Whether the message waits for its recipient's next chat line.
    pub fn is_pending(&self) -> (r: bool)
        ensures
            r == (self@.activation == Activation::OnNextMessage),
    {
        match self.activation {
            Activation::OnNextMessage => true,
            Activation::Fixed(_) => false,
        }
    }
}

impl Clone for Message {
    fn clone(&self) -> (r: Message)
        ensures
            r@ == self@,
    {
        Message {
            id: self.id.clone(),
            activation: self.activation,
            author: self.author.clone(),
            recipient: self.recipient.clone(),
            channel: self.channel.clone(),
            created: self.created,
            text: self.text.clone(),
        }
    }
}

impl PartialEq for Message {
    fn eq(&self, other: &Message) -> (r: bool)
        ensures
            r == (self@.id == other@.id),
    {
        self.id == other.id
    }
}

impl vstd::std_specs::cmp::PartialEqSpecImpl for Message {
    open spec fn obeys_eq_spec() -> bool {
        true
    }

    open spec fn eq_spec(&self, other: &Message) -> bool {
        self@.id == other@.id
    }
}

impl Eq for Message {

}

impl Default for Message {
    fn default() -> (r: Message)
        ensures
            r@.id.len() > 0,
            r@.activation == Activation::OnNextMessage,
            r@.author.len() == 0,
            r@.recipient.len() == 0,
            r@.channel.len() == 0,
            r@.text.len() == 0,
    {
        proof {
            reveal_strlit("");
        }
        Message::new(Activation::OnNextMessage, String::new(), "", String::new(), String::new())
    }
}

} // verus!
