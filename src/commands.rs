//! The chat commands: `~tell` leaves notes, `~cancel` withdraws one, `~bot`
//! describes the bot. Sending and persisting happen outside the library;
//! here are the decisions and the reply texts.

use vstd::prelude::*;
use vstd::string::StringExecFns;
use crate::clock::{distance, Timestamp};
use crate::display::{format_num, message_text, num_text};
use crate::message::{Message, MessageView};
use crate::message_parser::{
    activation_of, all_addressed, definition_outcome, definition_result_agrees, expands_to,
    MessageDefinition,
};
use crate::message_store::{bucket, message_views, MessageStore};
use crate::text::{chars_of, lower_of, lowercase, push_str, string_of};

verus! {

/// The longest note body, in characters.
pub const MAX_TEXT_CHARS: usize = 300;

/// The command prefix.
pub const PREFIX: char = '~';

#[derive(Clone, Copy, Debug, PartialEq, Eq, Structural)]
pub enum Command {
    Tell,
    Cancel,
    Bot,
    Unknown,
}

pub open spec fn command_of(word: Seq<char>) -> Option<Command> {
    if word.len() > 0 && word[0] == '~' {
        let name = word.subrange(1, word.len() as int);
        Some(
            if name == seq!['t', 'e', 'l', 'l'] {
                Command::Tell
            } else if name == seq!['c', 'a', 'n', 'c', 'e', 'l'] {
                Command::Cancel
            } else if name == seq!['b', 'o', 't'] {
                Command::Bot
            } else {
                Command::Unknown
            },
        )
    } else {
        None
    }
}

fn is_word(cs: &Vec<char>, from: usize, w: &Vec<char>) -> (r: bool)
    requires
        from <= cs@.len(),
    ensures
        r == (cs@.subrange(from as int, cs@.len() as int) == w@),
{
    let n = cs.len();
    if n - from != w.len() {
        proof {
            if cs@.subrange(from as int, n as int) == w@ {
                assert(cs@.subrange(from as int, n as int).len() == n - from);
            }
        }
        return false;
    }
    let mut i: usize = 0;
    while i < w.len()
        invariant
            n == cs@.len(),
            n - from == w@.len(),
            i <= w@.len(),
            forall|j: int| 0 <= j < i ==> cs@[from + j] == w@[j],
        decreases w@.len() - i,
    {
        if cs[from + i] != w[i] {
            assert(cs@.subrange(from as int, n as int)[i as int] != w@[i as int]);
            return false;
        }
        i = i + 1;
    }
    assert(cs@.subrange(from as int, n as int) =~= w@);
    true
}

/// The command that the first word of a chat line names, if it starts with
/// the prefix.
pub fn parse_command(word: &str) -> (r: Option<Command>)
    ensures
        r == command_of(word@),
{
    let cs = chars_of(word);
    if cs.len() == 0 || cs[0] != PREFIX {
        return None;
    }
    if is_word(&cs, 1, &vec!['t', 'e', 'l', 'l']) {
        Some(Command::Tell)
    } else if is_word(&cs, 1, &vec!['c', 'a', 'n', 'c', 'e', 'l']) {
        Some(Command::Cancel)
    } else if is_word(&cs, 1, &vec!['b', 'o', 't']) {
        Some(Command::Bot)
    } else {
        Some(Command::Unknown)
    }
}

// ---- ~tell ----

#[derive(Debug, Clone, PartialEq, Eq)]
pub enum TellError {
    Empty,
    TooLong,
    Parse(crate::message_parser::Error),
}

pub open spec fn tell_accepts(
    text: Seq<char>,
    author: Seq<char>,
    channel: Seq<char>,
    ms: Seq<Message>,
) -> bool {
    exists|def: MessageDefinition, t: Timestamp|
        definition_result_agrees(Ok(def), definition_outcome(text)) && #[trigger] expands_to(
            ms,
            def,
            author,
            channel,
            activation_of(def.schedule, t),
        )
}

/// The messages that `~tell text` from `author` in `channel` leaves: none
/// for an empty or overlong text or one that does not parse, else one per
/// recipient.
pub fn tell(text: &str, author: &str, channel: &str) -> (r: Result<Vec<Message>, TellError>)
    ensures
        text@.len() == 0 ==> r == Err::<Vec<Message>, TellError>(TellError::Empty),
        text@.len() > MAX_TEXT_CHARS ==> r == Err::<Vec<Message>, TellError>(TellError::TooLong),
        0 < text@.len() <= MAX_TEXT_CHARS ==> match r {
            Ok(ms) => tell_accepts(text@, author@, channel@, ms@),
            Err(TellError::Parse(e)) => definition_result_agrees(Err(e), definition_outcome(text@)),
            _ => false,
        },
        author@.len() > 0 ==> (r matches Ok(ms) ==> all_addressed(ms@)),
{
    let n = text.unicode_len();
    if n == 0 {
        return Err(TellError::Empty);
    }
    if n > MAX_TEXT_CHARS {
        return Err(TellError::TooLong);
    }
    match MessageDefinition::parse(text) {
        Err(e) => Err(TellError::Parse(e)),
        Ok(def) => {
            let ghost d = def;
            let ms = def.into_messages(author, channel);
            assert(exists|t: Timestamp| expands_to(ms@, d, author@, channel@, #[trigger] activation_of(d.schedule, t)));
            Ok(ms)
        },
    }
}

pub open spec fn listing_entry(m: MessageView) -> Seq<char> {
    m.recipient + seq![' ', '['] + m.id + seq![']']
}

/// `recipient [id]` for each message, separated by `, `.
pub open spec fn listing(ms: Seq<MessageView>) -> Seq<char>
    decreases ms.len(),
{
    if ms.len() == 0 {
        Seq::empty()
    } else if ms.len() == 1 {
        listing_entry(ms[0])
    } else {
        listing(ms.drop_last()) + seq![',', ' '] + listing_entry(ms.last())
    }
}

pub open spec fn tell_reply_text(ms: Seq<MessageView>, sender: Seq<char>) -> Seq<char> {
    if ms.len() == 1 {
        if lower_of(ms[0].recipient) == lower_of(sender) {
            "I'll remind you the next time you type in chat ["@ + ms[0].id + "]"@
        } else {
            "I'll remind "@ + ms[0].recipient + " when they next type in chat ["@ + ms[0].id
                + "]"@
        }
    } else {
        "I'll remind "@ + listing(ms) + " next time they type in chat"@
    }
}

fn push_listing_entry(out: &mut String, m: &Message)
    ensures
        final(out)@ == old(out)@ + listing_entry(m@),
{
    push_str(out, m.recipient());
    push_str(out, " [");
    push_str(out, m.id());
    push_str(out, "]");
    proof {
        reveal_strlit(" [");
        reveal_strlit("]");
    }
    assert(final(out)@ =~= old(out)@ + listing_entry(m@));
}

/// The confirmation for a `~tell` from `sender` that left `messages`.
pub fn tell_reply(messages: &Vec<Message>, sender: &str) -> (r: String)
    ensures
        r@ == tell_reply_text(message_views(messages@), sender@),
{
    let ghost ms = message_views(messages@);
    let mut out = String::new();
    if messages.len() == 1 {
        let m = &messages[0];
        assert(ms[0] == m@);
        let s = lowercase(sender);
        if m.in_bucket(&s) {
            push_str(&mut out, "I'll remind you the next time you type in chat [");
            push_str(&mut out, m.id());
            push_str(&mut out, "]");
        } else {
            push_str(&mut out, "I'll remind ");
            push_str(&mut out, m.recipient());
            push_str(&mut out, " when they next type in chat [");
            push_str(&mut out, m.id());
            push_str(&mut out, "]");
        }
        assert(out@ =~= tell_reply_text(ms, sender@));
    } else {
        push_str(&mut out, "I'll remind ");
        let ghost start = out@;
        let mut i: usize = 0;
        while i < messages.len()
            invariant
                ms == message_views(messages@),
                i <= messages@.len(),
                out@ == start + listing(ms.subrange(0, i as int)),
            decreases messages@.len() - i,
        {
            let ghost sub = ms.subrange(0, i + 1);
            assert(sub.drop_last() =~= ms.subrange(0, i as int));
            assert(sub.last() == messages@[i as int]@);
            if i > 0 {
                push_str(&mut out, ", ");
                proof {
                    reveal_strlit(", ");
                }
            } else {
                assert(ms.subrange(0, 0) =~= Seq::<MessageView>::empty());
            }
            push_listing_entry(&mut out, &messages[i]);
            proof {
                if i == 0 {
                    assert(sub[0] == sub.last());
                }
            }
            assert(out@ =~= start + listing(sub));
            i = i + 1;
        }
        assert(ms.subrange(0, ms.len() as int) =~= ms);
        push_str(&mut out, " next time they type in chat");
        assert(out@ =~= tell_reply_text(ms, sender@));
    }
    out
}

// ---- ~cancel ----

#[derive(Clone, Copy, Debug, PartialEq, Eq, Structural)]
pub enum CancelOutcome {
    MissingId,
    Removed,
    NotFound,
}

impl CancelOutcome {
    /// The reply to the sender.
    pub fn reply(&self) -> (r: String)
        ensures
            r@ == match self {
                CancelOutcome::MissingId => "Error: Missing id"@,
                CancelOutcome::Removed => "Removed messsage"@,
                CancelOutcome::NotFound => "You do not have a reminder to yourself with that id"@,
            },
    {
        match self {
            CancelOutcome::MissingId => String::from_str("Error: Missing id"),
            CancelOutcome::Removed => String::from_str("Removed messsage"),
            CancelOutcome::NotFound => String::from_str(
                "You do not have a reminder to yourself with that id",
            ),
        }
    }
}

/// `~cancel id` from `sender`: removes that message, if it is in the
/// sender's own bucket.
pub fn cancel(store: &mut MessageStore, sender: &str, id: Option<&str>) -> (r: CancelOutcome)
    requires
        old(store).wf(),
    ensures
        final(store).wf(),
        final(store).path_spec() == old(store).path_spec(),
        match id {
            None => r == CancelOutcome::MissingId && final(store).contents() == old(
                store,
            ).contents(),
            Some(i) => {
                let hit = bucket(old(store).contents(), sender@).contains_key(i@);
                &&& r == (if hit {
                    CancelOutcome::Removed
                } else {
                    CancelOutcome::NotFound
                })
                &&& final(store).contents() == if hit {
                    old(store).contents().remove(i@)
                } else {
                    old(store).contents()
                }
            },
        },
{
    match id {
        None => CancelOutcome::MissingId,
        Some(i) => {
            let probe = Message::from_id(String::from_str(i));
            if store.remove_for(sender, &probe) {
                CancelOutcome::Removed
            } else {
                CancelOutcome::NotFound
            }
        },
    }
}

// ---- delivering pending messages ----

/// The rendered messages, separated by ` - `.
pub open spec fn rendered_list(ms: Seq<MessageView>, now: Timestamp) -> Seq<char>
    decreases ms.len(),
{
    if ms.len() == 0 {
        Seq::empty()
    } else if ms.len() == 1 {
        message_text(ms[0].author, distance(now, ms[0].created), ms[0].text)
    } else {
        rendered_list(ms.drop_last(), now) + seq![' ', '-', ' '] + message_text(
            ms.last().author,
            distance(now, ms.last().created),
            ms.last().text,
        )
    }
}

pub open spec fn pending_reply_text(name: Seq<char>, ms: Seq<MessageView>, now: Timestamp) -> Seq<
    char,
> {
    seq!['@'] + name + seq![' '] + num_text(ms.len(), "reminder"@, "reminders"@) + seq![':', ' ']
        + rendered_list(ms, now)
}

/// The reply that hands `messages` to `name` at `now`.
pub fn pending_reply(name: &str, messages: &Vec<Message>, now: Timestamp) -> (r: String)
    ensures
        r@ == pending_reply_text(name@, message_views(messages@), now),
{
    let ghost ms = message_views(messages@);
    let mut out = String::new();
    push_str(&mut out, "@");
    push_str(&mut out, name);
    push_str(&mut out, " ");
    let count = format_num(messages.len(), "reminder", "reminders");
    push_str(&mut out, count.as_str());
    push_str(&mut out, ": ");
    proof {
        reveal_strlit("@");
        reveal_strlit(" ");
        reveal_strlit(": ");
    }
    let ghost start = out@;
    let mut i: usize = 0;
    while i < messages.len()
        invariant
            ms == message_views(messages@),
            i <= messages@.len(),
            out@ == start + rendered_list(ms.subrange(0, i as int), now),
        decreases messages@.len() - i,
    {
        let ghost sub = ms.subrange(0, i + 1);
        assert(sub.drop_last() =~= ms.subrange(0, i as int));
        assert(sub.last() == messages@[i as int]@);
        if i > 0 {
            push_str(&mut out, " - ");
            proof {
                reveal_strlit(" - ");
            }
        } else {
            assert(ms.subrange(0, 0) =~= Seq::<MessageView>::empty());
        }
        let t = messages[i].render(now);
        push_str(&mut out, t.as_str());
        proof {
            if i == 0 {
                assert(sub[0] == sub.last());
            }
        }
        assert(out@ =~= start + rendered_list(sub, now));
        i = i + 1;
    }
    assert(ms.subrange(0, ms.len() as int) =~= ms);
    assert(out@ =~= pending_reply_text(name@, ms, now));
    out
}

/// `s` cut into pieces of `size` characters; the last may be shorter.
pub open spec fn chunks_of(s: Seq<char>, size: nat) -> Seq<Seq<char>>
    decreases s.len(),
{
    if s.len() == 0 || size == 0 {
        Seq::empty()
    } else if s.len() <= size {
        seq![s]
    } else {
        seq![s.subrange(0, size as int)] + chunks_of(s.subrange(size as int, s.len() as int), size)
    }
}

/// Cuts a reply into chat-sized pieces (see `chunks_of`).
pub fn split_chunks(s: &str, size: usize) -> (r: Vec<String>)
    requires
        size > 0,
    ensures
        r@.map_values(|c: String| c@) == chunks_of(s@, size as nat),
{
    let cs = chars_of(s);
    let n = cs.len();
    let mut out: Vec<String> = Vec::new();
    let mut off: usize = 0;
    assert(s@.subrange(0, n as int) =~= s@);
    assert(out@.map_values(|c: String| c@) + chunks_of(s@, size as nat) =~= chunks_of(
        s@,
        size as nat,
    ));
    while off < n
        invariant
            cs@ == s@,
            n == cs@.len(),
            off <= n,
            size > 0,
            chunks_of(s@, size as nat) == out@.map_values(|c: String| c@) + chunks_of(
                s@.subrange(off as int, n as int),
                size as nat,
            ),
        decreases n - off,
    {
        let ghost rest = s@.subrange(off as int, n as int);
        let end = if n - off <= size {
            n
        } else {
            off + size
        };
        let piece = string_of(&cs, off, end);
        let ghost prev = out@.map_values(|c: String| c@);
        out.push(piece);
        proof {
            assert(out@.map_values(|c: String| c@) =~= prev.push(piece@));
            if n - off <= size {
                assert(chunks_of(rest, size as nat) == seq![rest]);
                assert(s@.subrange(n as int, n as int) =~= Seq::<char>::empty());
                assert(piece@ =~= rest);
            } else {
                assert(rest.subrange(0, size as int) =~= piece@);
                assert(rest.subrange(size as int, rest.len() as int) =~= s@.subrange(
                    end as int,
                    n as int,
                ));
            }
            assert(prev + chunks_of(rest, size as nat) =~= prev.push(piece@) + chunks_of(
                s@.subrange(end as int, n as int),
                size as nat,
            ));
        }
        off = end;
    }
    assert(s@.subrange(n as int, n as int) =~= Seq::<char>::empty());
    assert(out@.map_values(|c: String| c@) + Seq::<Seq<char>>::empty() =~= out@.map_values(
        |c: String| c@,
    ));
    out
}

} // verus!
