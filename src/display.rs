//! Human-readable text: counts, elapsed times and stored messages.

use vstd::prelude::*;
use crate::clock::{distance, Duration, Timestamp};
use crate::message::Message;
use crate::text::{decimal, push_char, push_decimal, push_signed_decimal, push_str, signed_decimal};

verus! {

/// `num` followed by `text`, or nothing when `num` is zero.
pub open spec fn short_num_text(num: int, text: Seq<char>) -> Seq<char> {
    if num == 0 {
        Seq::empty()
    } else {
        signed_decimal(num) + text
    }
}

pub fn format_short_num(num: i64, text: &str) -> (r: String)
    ensures
        r@ == short_num_text(num as int, text@),
{
    let mut out = String::new();
    if num != 0 {
        push_signed_decimal(&mut out, num);
        push_str(&mut out, text);
    }
    out
}

/// `1 singular`, `n plural`, or nothing when `num` is zero.
pub open spec fn num_text(num: nat, singular: Seq<char>, plural: Seq<char>) -> Seq<char> {
    if num == 0 {
        Seq::empty()
    } else if num == 1 {
        seq!['1', ' '] + singular
    } else {
        decimal(num) + seq![' '] + plural
    }
}

pub fn format_num(num: usize, singular: &str, plural: &str) -> (r: String)
    ensures
        r@ == num_text(num as nat, singular@, plural@),
{
    let mut out = String::new();
    if num == 1 {
        push_char(&mut out, '1');
        push_char(&mut out, ' ');
        push_str(&mut out, singular);
        assert(out@ =~= num_text(num as nat, singular@, plural@));
    } else if num != 0 {
        push_decimal(&mut out, num as u64);
        push_char(&mut out, ' ');
        push_str(&mut out, plural);
    }
    out
}

/// One part of an elapsed-time text: `n` and its unit letter, then a space.
pub open spec fn part_text(n: nat, unit: char) -> Seq<char> {
    if n == 0 {
        Seq::empty()
    } else {
        decimal(n) + seq![unit, ' ']
    }
}

/// The parts of an elapsed time: years (of 356 days, counted from the days
/// without taking them away), days, hours, minutes and seconds.
pub open spec fn duration_parts(secs: nat) -> (nat, nat, nat, nat, nat) {
    let days = secs / 86_400;
    let years = days / 356;
    let hours = (secs / 3_600 - days * 24) as nat;
    let minutes = (secs / 60 - hours * 60 - days * 24 * 60) as nat;
    let seconds = (secs - minutes * 60 - hours * 3_600 - days * 86_400) as nat;
    (years, days, hours, minutes, seconds)
}

/// The nonzero parts, each with its unit, then `ago`.
pub open spec fn duration_text(secs: nat) -> Seq<char> {
    let (y, d, h, m, s) = duration_parts(secs);
    part_text(y, 'y') + part_text(d, 'd') + part_text(h, 'h') + part_text(m, 'm') + part_text(s, 's')
        + seq!['a', 'g', 'o']
}

fn push_part(out: &mut String, n: u64, unit: char)
    ensures
        final(out)@ == old(out)@ + part_text(n as nat, unit),
{
    if n != 0 {
        push_decimal(out, n);
        push_char(out, unit);
        push_char(out, ' ');
        assert(final(out)@ =~= old(out)@ + part_text(n as nat, unit));
    } else {
        assert(final(out)@ =~= old(out)@ + part_text(n as nat, unit));
    }
}

/// An elapsed time as text, such as `1d 2h 5s ago`.
pub fn format_duration(duration: Duration) -> (r: String)
    ensures
        r@ == duration_text(duration.secs as nat),
{
    let secs = duration.secs;
    let days = secs / 86_400;
    let years = days / 356;
    let hours = secs / 3_600 - days * 24;
    let minutes = secs / 60 - hours * 60 - days * 24 * 60;
    let seconds = secs - minutes * 60 - hours * 3_600 - days * 86_400;
    let mut out = String::new();
    push_part(&mut out, years, 'y');
    push_part(&mut out, days, 'd');
    push_part(&mut out, hours, 'h');
    push_part(&mut out, minutes, 'm');
    push_part(&mut out, seconds, 's');
    push_char(&mut out, 'a');
    push_char(&mut out, 'g');
    push_char(&mut out, 'o');
    assert(out@ =~= duration_text(duration.secs as nat));
    out
}

/// How a message reads when it is delivered at `now`.
pub open spec fn message_text(author: Seq<char>, elapsed: nat, text: Seq<char>) -> Seq<char> {
    author + seq![' ', '('] + duration_text(elapsed) + seq![')', ':', ' '] + text
}

impl Message {
    /// `author (elapsed ago): text`, the elapsed time counted up to `now`.
    pub fn render(&self, now: Timestamp) -> (r: String)
        ensures
            r@ == message_text(self@.author, distance(now, self@.created), self@.text),
    {
        let mut out = String::new();
        push_str(&mut out, self.author());
        push_char(&mut out, ' ');
        push_char(&mut out, '(');
        let elapsed = format_duration(now.abs_diff(self.created()));
        push_str(&mut out, elapsed.as_str());
        push_char(&mut out, ')');
        push_char(&mut out, ':');
        push_char(&mut out, ' ');
        push_str(&mut out, self.text());
        assert(out@ =~= message_text(self@.author, distance(now, self@.created), self@.text));
        out
    }
}

} // verus!
