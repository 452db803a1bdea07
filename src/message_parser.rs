//! The message-definition grammar: `key:value` attributes, then one
//! recipient token, then the free text.
//!
//! ```text
//! definition = ws* (attribute ws+)* recipient (ws+ text)? ws*
//! attribute  = key ':' ( '"' [^"]+ '"' | [^ws]+ )
//! key        = [A-Za-z0-9_]+
//! recipient  = [^ws]+          (a token that is not an attribute)
//! ```
//!
//! The attribute `cc` adds a recipient, `in` schedules the message after a
//! duration expression (see `duration_parser`). Recipients and attribute
//! values are lower-cased as std's `to_lowercase` does.

use vstd::prelude::*;
use vstd::string::StringExecFns;
use crate::clock::{advanced, now, Duration, Timestamp};
use crate::duration_parser::{
    self, duration_outcome, duration_result_agrees, lemma_parsed_duration_sums_tokens,
    skip_ws, skip_ws_from, token_seconds, DurationOutcome, IntermediateDuration,
};
use crate::message::{fresh_id, Activation, Message};
use crate::text::{
    chars_of, is_ws, is_ws_char, lower_of, lowercase, string_of,
};

verus! {

/// When a parsed message should fire, before any message exists.
#[derive(Clone, Copy, Debug, PartialEq, Eq, Structural)]
pub enum Schedule {
    Unscheduled,
    Relative(Duration),
    Fixed(Timestamp),
}

/// The activation that a schedule gives for messages made at `now`.
pub open spec fn activation_of(s: Schedule, now: Timestamp) -> Activation {
    match s {
        Schedule::Unscheduled => Activation::OnNextMessage,
        Schedule::Relative(d) => Activation::Fixed(advanced(now, d)),
        Schedule::Fixed(t) => Activation::Fixed(t),
    }
}

impl Schedule {
    /// The activation of messages made at `now` (see `activation_of`).
    pub fn to_activation(self, now: Timestamp) -> (r: Activation)
        ensures
            r == activation_of(self, now),
    {
        match self {
            Schedule::Unscheduled => Activation::OnNextMessage,
            Schedule::Relative(d) => Activation::Fixed(now.saturating_add(d)),
            Schedule::Fixed(t) => Activation::Fixed(t),
        }
    }
}

/// A parsed message definition: recipients (lower-cased, each once, in order
/// of appearance), schedule and body text.
#[derive(Debug, Clone)]
pub struct MessageDefinition {
    pub text: String,
    pub created: Timestamp,
    pub schedule: Schedule,
    pub recipients: Vec<String>,
}

#[derive(Debug, Clone, PartialEq, Eq)]
pub enum Error {
    /// The input does not have the shape of a definition.
    Grammar,
    /// An attribute other than `cc` and `in`.
    UnknownAttributeKey(String),
    /// The value of `in` is not a duration expression.
    ParseDuration(duration_parser::Error),
    /// The definition has no body text.
    EmptyBody,
}

pub open spec fn views(v: Seq<String>) -> Seq<Seq<char>> {
    v.map_values(|r: String| r@)
}

/// `rs` with `x` added at the end, unless it is already there.
pub open spec fn add_unique(rs: Seq<Seq<char>>, x: Seq<char>) -> Seq<Seq<char>> {
    if rs.contains(x) {
        rs
    } else {
        rs.push(x)
    }
}

// ---- the grammar ----

pub open spec fn is_key_char(c: char) -> bool {
    ('a' <= c && c <= 'z') || ('A' <= c && c <= 'Z') || ('0' <= c && c <= '9') || c == '_'
}

pub open spec fn key_end(s: Seq<char>, i: int) -> int
    decreases s.len() - i,
{
    if 0 <= i < s.len() && is_key_char(s[i]) {
        key_end(s, i + 1)
    } else {
        i
    }
}

/// The end of the run of non-whitespace characters at `i`.
pub open spec fn token_end(s: Seq<char>, i: int) -> int
    decreases s.len() - i,
{
    if 0 <= i < s.len() && !is_ws(s[i]) {
        token_end(s, i + 1)
    } else {
        i
    }
}

/// The first `"` at or after `i`, or the end of `s`.
pub open spec fn quote_end(s: Seq<char>, i: int) -> int
    decreases s.len() - i,
{
    if 0 <= i < s.len() && s[i] != '"' {
        quote_end(s, i + 1)
    } else {
        i
    }
}

/// The end of `s[..e]` without trailing whitespace, not before `t`.
pub open spec fn trim_end(s: Seq<char>, t: int, e: int) -> int
    decreases e - t,
{
    if t < e && 0 < e <= s.len() && is_ws(s[e - 1]) {
        trim_end(s, t, e - 1)
    } else {
        e
    }
}

/// Where an attribute's key and value lie, and where it ends.
pub struct Attr {
    pub key_start: int,
    pub key_end: int,
    pub value_start: int,
    pub value_end: int,
    pub end: int,
}

pub enum AttrScan {
    NotAttribute,
    Malformed,
    Attribute(Attr),
}

pub open spec fn attr_at(s: Seq<char>, p: int) -> AttrScan {
    let k = key_end(s, p);
    if !(k > p && k < s.len() && s[k] == ':') {
        AttrScan::NotAttribute
    } else if k + 1 < s.len() && s[k + 1] == '"' {
        let q = quote_end(s, k + 2);
        if q >= s.len() || q == k + 2 {
            AttrScan::Malformed
        } else if q + 1 < s.len() && !is_ws(s[q + 1]) {
            AttrScan::Malformed
        } else {
            AttrScan::Attribute(
                Attr { key_start: p, key_end: k, value_start: k + 2, value_end: q, end: q + 1 },
            )
        }
    } else {
        let e = token_end(s, k + 1);
        if e == k + 1 {
            AttrScan::Malformed
        } else {
            AttrScan::Attribute(
                Attr { key_start: p, key_end: k, value_start: k + 1, value_end: e, end: e },
            )
        }
    }
}

/// The attributes from `p` on, and where the first non-attribute starts;
/// `None` where an attribute is malformed.
pub open spec fn scan_attrs(s: Seq<char>, p: int) -> Option<(Seq<Attr>, int)>
    decreases s.len() - p,
{
    match attr_at(s, p) {
        AttrScan::NotAttribute => Some((Seq::empty(), p)),
        AttrScan::Malformed => None,
        AttrScan::Attribute(a) => {
            let q = skip_ws(s, a.end);
            if p < q && q <= s.len() {
                match scan_attrs(s, q) {
                    Some((rest, e)) => Some((seq![a] + rest, e)),
                    None => None,
                }
            } else {
                None
            }
        },
    }
}

pub enum Layout {
    Bad,
    Good {
        attrs: Seq<Attr>,
        rec_start: int,
        rec_end: int,
        text_start: int,
        text_end: int,
    },
}

pub open spec fn layout(s: Seq<char>) -> Layout {
    match scan_attrs(s, skip_ws(s, 0)) {
        None => Layout::Bad,
        Some((attrs, p)) => {
            let r = token_end(s, p);
            if r == p {
                Layout::Bad
            } else {
                let t = skip_ws(s, r);
                Layout::Good {
                    attrs,
                    rec_start: p,
                    rec_end: r,
                    text_start: t,
                    text_end: trim_end(s, t, s.len() as int),
                }
            }
        },
    }
}

// ---- what the attributes mean ----

pub struct DefState {
    pub recipients: Seq<Seq<char>>,
    pub schedule: Schedule,
}

pub enum Step {
    Done(DefState),
    Unknown(Seq<char>),
    BadDuration(DurationOutcome),
}

pub open spec fn key_cc() -> Seq<char> {
    seq!['c', 'c']
}

pub open spec fn key_in() -> Seq<char> {
    seq!['i', 'n']
}

pub open spec fn apply_attr(s: Seq<char>, a: Attr, st: DefState) -> Step {
    let key = s.subrange(a.key_start, a.key_end);
    let value = lower_of(s.subrange(a.value_start, a.value_end));
    if key == key_cc() {
        Step::Done(DefState { recipients: add_unique(st.recipients, value), schedule: st.schedule })
    } else if key == key_in() {
        match duration_outcome(value) {
            DurationOutcome::Parsed(toks) => Step::Done(
                DefState {
                    recipients: st.recipients,
                    schedule: Schedule::Relative(Duration { secs: token_seconds(toks) as u64 }),
                },
            ),
            o => Step::BadDuration(o),
        }
    } else {
        Step::Unknown(key)
    }
}

/// The state after the first `n` attributes, left to right; the first
/// failing attribute decides.
pub open spec fn apply_attrs(s: Seq<char>, attrs: Seq<Attr>, n: int) -> Step
    decreases n,
{
    if n <= 0 {
        Step::Done(DefState { recipients: Seq::empty(), schedule: Schedule::Unscheduled })
    } else {
        match apply_attrs(s, attrs, n - 1) {
            Step::Done(st) => apply_attr(s, attrs[n - 1], st),
            e => e,
        }
    }
}

pub enum DefinitionOutcome {
    Grammar,
    UnknownKey(Seq<char>),
    BadDuration(DurationOutcome),
    EmptyBody,
    Parsed { recipients: Seq<Seq<char>>, schedule: Schedule, text: Seq<char> },
}

pub open spec fn definition_outcome(s: Seq<char>) -> DefinitionOutcome {
    match layout(s) {
        Layout::Bad => DefinitionOutcome::Grammar,
        Layout::Good { attrs, rec_start, rec_end, text_start, text_end } => match apply_attrs(
            s,
            attrs,
            attrs.len() as int,
        ) {
            Step::Unknown(k) => DefinitionOutcome::UnknownKey(k),
            Step::BadDuration(o) => DefinitionOutcome::BadDuration(o),
            Step::Done(st) => if text_end <= text_start {
                DefinitionOutcome::EmptyBody
            } else {
                DefinitionOutcome::Parsed {
                    recipients: add_unique(
                        st.recipients,
                        lower_of(s.subrange(rec_start, rec_end)),
                    ),
                    schedule: st.schedule,
                    text: s.subrange(text_start, text_end),
                }
            },
        },
    }
}

pub open spec fn definition_result_agrees(
    r: Result<MessageDefinition, Error>,
    o: DefinitionOutcome,
) -> bool {
    match o {
        DefinitionOutcome::Grammar => r matches Err(Error::Grammar),
        DefinitionOutcome::UnknownKey(k) => match r {
            Err(Error::UnknownAttributeKey(t)) => t@ == k,
            _ => false,
        },
        DefinitionOutcome::BadDuration(d) => match r {
            Err(Error::ParseDuration(e)) => duration_result_agrees(Err(e), d),
            _ => false,
        },
        DefinitionOutcome::EmptyBody => r matches Err(Error::EmptyBody),
        DefinitionOutcome::Parsed { recipients, schedule, text } => match r {
            Ok(def) => views(def.recipients@) == recipients && def.schedule == schedule
                && def.text@ == text,
            _ => false,
        },
    }
}

// ---- reading the grammar ----

type AttrPos = (usize, usize, usize, usize, usize);

pub open spec fn attr_of(t: AttrPos) -> Attr {
    Attr {
        key_start: t.0 as int,
        key_end: t.1 as int,
        value_start: t.2 as int,
        value_end: t.3 as int,
        end: t.4 as int,
    }
}

enum AttrRead {
    NotAttribute,
    Malformed,
    Attribute(AttrPos),
}

fn key_end_from(cs: &Vec<char>, i: usize) -> (r: usize)
    requires
        i <= cs@.len(),
    ensures
        r == key_end(cs@, i as int),
        i <= r <= cs@.len(),
{
    let mut p = i;
    while p < cs.len() && (('a' <= cs[p] && cs[p] <= 'z') || ('A' <= cs[p] && cs[p] <= 'Z') || ('0'
        <= cs[p] && cs[p] <= '9') || cs[p] == '_')
        invariant
            i <= p <= cs@.len(),
            key_end(cs@, i as int) == key_end(cs@, p as int),
        decreases cs@.len() - p,
    {
        p = p + 1;
    }
    p
}

fn token_end_from(cs: &Vec<char>, i: usize) -> (r: usize)
    requires
        i <= cs@.len(),
    ensures
        r == token_end(cs@, i as int),
        i <= r <= cs@.len(),
{
    let mut p = i;
    while p < cs.len() && !is_ws_char(cs[p])
        invariant
            i <= p <= cs@.len(),
            token_end(cs@, i as int) == token_end(cs@, p as int),
        decreases cs@.len() - p,
    {
        p = p + 1;
    }
    p
}

fn quote_end_from(cs: &Vec<char>, i: usize) -> (r: usize)
    requires
        i <= cs@.len(),
    ensures
        r == quote_end(cs@, i as int),
        i <= r <= cs@.len(),
{
    let mut p = i;
    while p < cs.len() && cs[p] != '"'
        invariant
            i <= p <= cs@.len(),
            quote_end(cs@, i as int) == quote_end(cs@, p as int),
        decreases cs@.len() - p,
    {
        p = p + 1;
    }
    p
}

fn trim_end_from(cs: &Vec<char>, t: usize) -> (r: usize)
    requires
        t <= cs@.len(),
    ensures
        r == trim_end(cs@, t as int, cs@.len() as int),
        t <= r <= cs@.len(),
{
    let mut e = cs.len();
    while t < e && is_ws_char(cs[e - 1])
        invariant
            t <= e <= cs@.len(),
            trim_end(cs@, t as int, cs@.len() as int) == trim_end(cs@, t as int, e as int),
        decreases e,
    {
        e = e - 1;
    }
    e
}

fn read_attr(cs: &Vec<char>, p: usize) -> (r: AttrRead)
    requires
        p <= cs@.len(),
    ensures
        match attr_at(cs@, p as int) {
            AttrScan::NotAttribute => r is NotAttribute,
            AttrScan::Malformed => r is Malformed,
            AttrScan::Attribute(a) => r matches AttrRead::Attribute(t) && attr_of(t) == a && p
                < t.4 <= cs@.len() && t.0 <= t.1 <= cs@.len() && t.2 < t.3 && t.2 <= t.3 <= cs@.len(),
        },
{
    let n = cs.len();
    let k = key_end_from(cs, p);
    if !(k > p && k < n && cs[k] == ':') {
        return AttrRead::NotAttribute;
    }
    if k + 1 < n && cs[k + 1] == '"' {
        let q = quote_end_from(cs, k + 2);
        if q >= n || q == k + 2 {
            AttrRead::Malformed
        } else if q + 1 < n && !is_ws_char(cs[q + 1]) {
            AttrRead::Malformed
        } else {
            AttrRead::Attribute((p, k, k + 2, q, q + 1))
        }
    } else {
        let e = token_end_from(cs, k + 1);
        if e == k + 1 {
            AttrRead::Malformed
        } else {
            AttrRead::Attribute((p, k, k + 1, e, e))
        }
    }
}

/// The characters `cs[from..to]`, lower-cased.
fn lowered(cs: &Vec<char>, from: usize, to: usize) -> (r: String)
    requires
        from <= to <= cs@.len(),
    ensures
        r@ == lower_of(cs@.subrange(from as int, to as int)),
        from < to ==> r@.len() > 0,
{
    let t = string_of(cs, from, to);
    lowercase(t.as_str())
}

/// Adds `x` to `rs` unless an equal string is there already.
fn add_recipient(rs: &mut Vec<String>, x: String)
    ensures
        views(final(rs)@) == add_unique(views(old(rs)@), x@),
{
    let mut i: usize = 0;
    while i < rs.len()
        invariant
            i <= rs@.len(),
            rs@ == old(rs)@,
            forall|j: int| 0 <= j < i ==> rs@[j]@ != x@,
        decreases rs@.len() - i,
    {
        if rs[i] == x {
            assert(views(rs@)[i as int] == x@);
            return;
        }
        i = i + 1;
    }
    assert(!views(rs@).contains(x@)) by {
        if views(rs@).contains(x@) {
            let j = choose|j: int| 0 <= j < views(rs@).len() && views(rs@)[j] == x@;
            assert(rs@[j]@ == x@);
        }
    }
    rs.push(x);
    assert(views(rs@) =~= views(old(rs)@).push(x@));
}

proof fn lemma_step_error_stays(s: Seq<char>, attrs: Seq<Attr>, n: int, m: int)
    requires
        0 <= n <= m,
        !(apply_attrs(s, attrs, n) is Done),
    ensures
        apply_attrs(s, attrs, m) == apply_attrs(s, attrs, n),
    decreases m - n,
{
    if m > n {
        lemma_step_error_stays(s, attrs, n, m - 1);
    }
}

fn is_key(cs: &Vec<char>, from: usize, to: usize, a: char, b: char) -> (r: bool)
    requires
        from <= to <= cs@.len(),
    ensures
        r == (cs@.subrange(from as int, to as int) == seq![a, b]),
{
    if to - from == 2 && cs[from] == a && cs[from + 1] == b {
        assert(cs@.subrange(from as int, to as int) =~= seq![a, b]);
        true
    } else {
        proof {
            if cs@.subrange(from as int, to as int) == seq![a, b] {
                assert(cs@.subrange(from as int, to as int).len() == to - from);
                assert(cs@.subrange(from as int, to as int)[0] == a);
                assert(cs@.subrange(from as int, to as int)[1] == b);
            }
        }
        false
    }
}

impl MessageDefinition {
    /// Parses a message definition (see `definition_outcome`); `created` is
    /// the time of parsing.
    pub fn parse(s: &str) -> (r: Result<MessageDefinition, Error>)
        ensures
            definition_result_agrees(r, definition_outcome(s@)),
            r matches Ok(def) ==> all_nonempty(views(def.recipients@)),
    {
        let cs = chars_of(s);
        let n = cs.len();
        let p0 = skip_ws_from(&cs, 0);
        let mut p = p0;
        let mut attrs: Vec<AttrPos> = Vec::new();
        let ghost mut g: Seq<Attr> = Seq::empty();
        loop
            invariant
                cs@ == s@,
                n == cs@.len(),
                p <= n,
                p0 as int == skip_ws(s@, 0),
                attrs@.len() == g.len(),
                forall|j: int| 0 <= j < g.len() ==> #[trigger] attr_of(attrs@[j]) == g[j],
                forall|j: int| 0 <= j < g.len() ==> (#[trigger] attrs@[j]).0 <= attrs@[j].1 <= n && attrs@[j].2 < attrs@[j].3 && attrs@[j].2 <= attrs@[j].3 <= n,
                scan_attrs(s@, p0 as int) == match scan_attrs(s@, p as int) {
                    Some((rest, e)) => Some((g + rest, e)),
                    None => None,
                },
            ensures
                scan_attrs(s@, p0 as int) == Some((g, p as int)),
                p <= n,
                attrs@.len() == g.len(),
                forall|j: int| 0 <= j < g.len() ==> #[trigger] attr_of(attrs@[j]) == g[j],
                forall|j: int| 0 <= j < g.len() ==> (#[trigger] attrs@[j]).0 <= attrs@[j].1 <= n && attrs@[j].2 < attrs@[j].3 && attrs@[j].2 <= attrs@[j].3 <= n,
            decreases n - p,
        {
            match read_attr(&cs, p) {
                AttrRead::NotAttribute => {
                    assert(g + Seq::<Attr>::empty() =~= g);
                    break;
                },
                AttrRead::Malformed => {
                    return Err(Error::Grammar);
                },
                AttrRead::Attribute(t) => {
                    let q = skip_ws_from(&cs, t.4);
                    let ghost a = attr_of(t);
                    proof {
                        let tail = scan_attrs(s@, q as int);
                        assert(scan_attrs(s@, p as int) == match tail {
                            Some((rest, e)) => Some((seq![a] + rest, e)),
                            None => None,
                        });
                        if tail is Some {
                            let rest = tail->0;
                            assert(g.push(a) + rest.0 =~= g + (seq![a] + rest.0));
                        }
                        g = g.push(a);
                    }
                    attrs.push(t);
                    p = q;
                },
            }
        }
        let r = token_end_from(&cs, p);
        if r == p {
            return Err(Error::Grammar);
        }
        let t = skip_ws_from(&cs, r);
        let e = trim_end_from(&cs, t);
        // what the attributes say
        let mut recipients: Vec<String> = Vec::new();
        let mut schedule = Schedule::Unscheduled;
        let mut i: usize = 0;
        assert(views(recipients@) =~= Seq::<Seq<char>>::empty());
        assert(layout(s@) == Layout::Good {
            attrs: g,
            rec_start: p as int,
            rec_end: r as int,
            text_start: t as int,
            text_end: e as int,
        });
        while i < attrs.len()
            invariant
                layout(s@) == (Layout::Good {
                    attrs: g,
                    rec_start: p as int,
                    rec_end: r as int,
                    text_start: t as int,
                    text_end: e as int,
                }),
                cs@ == s@,
                n == cs@.len(),
                attrs@.len() == g.len(),
                forall|j: int| 0 <= j < g.len() ==> #[trigger] attr_of(attrs@[j]) == g[j],
                forall|j: int| 0 <= j < g.len() ==> (#[trigger] attrs@[j]).0 <= attrs@[j].1 <= n && attrs@[j].2 < attrs@[j].3 && attrs@[j].2 <= attrs@[j].3 <= n,
                i <= g.len(),
                apply_attrs(s@, g, i as int) == Step::Done(
                    DefState { recipients: views(recipients@), schedule },
                ),
                all_nonempty(views(recipients@)),
            decreases g.len() - i,
        {
            let a = attrs[i];
            assert(attr_of(attrs@[i as int]) == g[i as int]);
            let value = lowered(&cs, a.2, a.3);
            let ghost st = DefState { recipients: views(recipients@), schedule };
            assert(apply_attrs(s@, g, i + 1) == apply_attr(s@, g[i as int], st));
            if is_key(&cs, a.0, a.1, 'c', 'c') {
                proof {
                    lemma_add_unique_nonempty(views(recipients@), value@);
                }
                add_recipient(&mut recipients, value);
            } else if is_key(&cs, a.0, a.1, 'i', 'n') {
                match IntermediateDuration::parse(value.as_str()) {
                    Ok(d) => {
                        proof {
                            lemma_parsed_duration_sums_tokens(value@, d);
                        }
                        schedule = Schedule::Relative(d.to_duration());
                    },
                    Err(err) => {
                        proof {
                            lemma_step_error_stays(s@, g, i + 1, g.len() as int);
                        }
                        return Err(Error::ParseDuration(err));
                    },
                }
            } else {
                proof {
                    lemma_step_error_stays(s@, g, i + 1, g.len() as int);
                }
                return Err(Error::UnknownAttributeKey(string_of(&cs, a.0, a.1)));
            }
            i = i + 1;
        }
        if e <= t {
            return Err(Error::EmptyBody);
        }
        let rec = lowered(&cs, p, r);
        proof {
            lemma_add_unique_nonempty(views(recipients@), rec@);
        }
        add_recipient(&mut recipients, rec);
        let text = string_of(&cs, t, e);
        Ok(MessageDefinition { text, created: now(), schedule, recipients })
    }
}

// ---- expansion into messages ----

pub open spec fn me() -> Seq<char> {
    seq!['m', 'e']
}

/// `rs` without the entries equal to `x`.
pub open spec fn without(rs: Seq<Seq<char>>, x: Seq<char>) -> Seq<Seq<char>>
    decreases rs.len(),
{
    if rs.len() == 0 {
        rs
    } else if rs.last() == x {
        without(rs.drop_last(), x)
    } else {
        without(rs.drop_last(), x).push(rs.last())
    }
}

/// The recipients lower-cased, each once, in order of first appearance.
pub open spec fn lowered_set(rs: Seq<Seq<char>>) -> Seq<Seq<char>>
    decreases rs.len(),
{
    if rs.len() == 0 {
        Seq::empty()
    } else {
        add_unique(lowered_set(rs.drop_last()), lower_of(rs.last()))
    }
}

/// The recipients, lower-cased and each once, where `me` stands for the
/// author.
pub open spec fn resolve_me(rs: Seq<Seq<char>>, author: Seq<char>) -> Seq<Seq<char>> {
    let ls = lowered_set(rs);
    if ls.contains(me()) {
        add_unique(without(ls, me()), lower_of(author))
    } else {
        ls
    }
}

/// The messages that a definition expands to: one per resolved recipient,
/// in order, all with the definition's text and the given author, channel,
/// creation time and activation.
pub open spec fn expands_to(
    msgs: Seq<Message>,
    def: MessageDefinition,
    author: Seq<char>,
    channel: Seq<char>,
    activation: Activation,
) -> bool {
    let rs = resolve_me(views(def.recipients@), author);
    &&& msgs.len() == rs.len()
    &&& forall|i: int|
        0 <= i < msgs.len() ==> {
            let m = (#[trigger] msgs[i])@;
            &&& m.recipient == lower_of(rs[i])
            &&& m.text == def.text@
            &&& m.author == author
            &&& m.channel == channel
            &&& m.created == def.created
            &&& m.activation == activation
        }
}

/// Every message names a recipient, given non-empty recipients and author.
pub open spec fn all_addressed(msgs: Seq<Message>) -> bool {
    forall|i: int| 0 <= i < msgs.len() ==> (#[trigger] msgs[i])@.recipient.len() > 0
}

proof fn lemma_without_absent(rs: Seq<Seq<char>>, x: Seq<char>)
    requires
        !rs.contains(x),
    ensures
        without(rs, x) == rs,
    decreases rs.len(),
{
    if rs.len() > 0 {
        assert(!rs.drop_last().contains(x)) by {
            if rs.drop_last().contains(x) {
                let j = choose|j: int| 0 <= j < rs.drop_last().len() && rs.drop_last()[j] == x;
                assert(rs[j] == x);
            }
        }
        lemma_without_absent(rs.drop_last(), x);
        assert(rs.last() != x) by {
            if rs.last() == x {
                assert(rs[rs.len() - 1] == x);
            }
        }
        assert(rs.drop_last().push(rs.last()) =~= rs);
    }
}

fn is_me(s: &String) -> (r: bool)
    ensures
        r == (s@ == me()),
{
    let t = s.as_str();
    let n = t.unicode_len();
    if n == 2 && t.get_char(0) == 'm' && t.get_char(1) == 'e' {
        assert(t@ =~= me());
        true
    } else {
        proof {
            if s@ == me() {
                assert(t@[0] == 'm' && t@[1] == 'e');
            }
        }
        false
    }
}

impl MessageDefinition {
    /// The recipients once lower-cased, each once, with `me` standing for
    /// the author (see `resolve_me`).
    pub fn resolved_recipients(&self, author: &str) -> (r: Vec<String>)
        ensures
            views(r@) == resolve_me(views(self.recipients@), author@),
            all_nonempty(views(self.recipients@)) && author@.len() > 0 ==> all_nonempty(views(r@)),
    {
        let rs = &self.recipients;
        let mut ls: Vec<String> = Vec::new();
        let mut i: usize = 0;
        while i < rs.len()
            invariant
                i <= rs@.len(),
                views(ls@) == lowered_set(views(rs@.subrange(0, i as int))),
                all_nonempty(views(rs@)) ==> all_nonempty(views(ls@)),
            decreases rs@.len() - i,
        {
            let x = lowercase(rs[i].as_str());
            proof {
                let sub = views(rs@.subrange(0, i + 1));
                assert(sub.drop_last() =~= views(rs@.subrange(0, i as int)));
                assert(sub.last() == rs@[i as int]@);
                if all_nonempty(views(rs@)) {
                    assert(views(rs@)[i as int].len() > 0);
                    lemma_add_unique_nonempty(views(ls@), x@);
                }
            }
            add_recipient(&mut ls, x);
            i = i + 1;
        }
        assert(rs@.subrange(0, rs@.len() as int) =~= rs@);
        let ghost lv = views(ls@);
        let mut kept: Vec<String> = Vec::new();
        let mut had_me = false;
        let mut i: usize = 0;
        while i < ls.len()
            invariant
                lv == views(ls@),
                i <= ls@.len(),
                views(kept@) == without(views(ls@.subrange(0, i as int)), me()),
                had_me == exists|j: int| 0 <= j < i && (#[trigger] ls@[j])@ == me(),
                all_nonempty(lv) ==> all_nonempty(views(kept@)),
            decreases ls@.len() - i,
        {
            let x = &ls[i];
            assert(views(ls@.subrange(0, i + 1)).drop_last() =~= views(ls@.subrange(0, i as int)));
            if is_me(x) {
                had_me = true;
            } else {
                proof {
                    if all_nonempty(lv) {
                        assert(lv[i as int] == x@);
                    }
                }
                kept.push(x.clone());
                assert(views(kept@) =~= without(views(ls@.subrange(0, i as int)), me()).push(x@));
            }
            i = i + 1;
        }
        assert(ls@.subrange(0, ls@.len() as int) =~= ls@);
        proof {
            if lv.contains(me()) {
                let j = choose|j: int| 0 <= j < lv.len() && lv[j] == me();
                assert(ls@[j]@ == me());
                assert(had_me);
            }
            if had_me {
                let j = choose|j: int| 0 <= j < ls@.len() && (#[trigger] ls@[j])@ == me();
                assert(lv[j] == me());
                assert(lv.contains(me()));
            }
            assert(views(ls@.subrange(0, ls@.len() as int)) == lv);
            if !had_me {
                lemma_without_absent(lv, me());
            }
        }
        if had_me {
            let a = lowercase(author);
            proof {
                if all_nonempty(lv) && author@.len() > 0 {
                    lemma_add_unique_nonempty(views(kept@), a@);
                }
            }
            add_recipient(&mut kept, a);
        }
        kept
    }

    /// The messages for each resolved recipient, activated as the schedule
    /// says for a definition expanded at `now`.
    pub fn into_messages_at(self, author: &str, channel: &str, now: Timestamp) -> (r: Vec<
        Message,
    >)
        ensures
            expands_to(r@, self, author@, channel@, activation_of(self.schedule, now)),
            all_nonempty(views(self.recipients@)) && author@.len() > 0 ==> all_addressed(r@),
    {
        let activation = self.schedule.to_activation(now);
        let rs = self.resolved_recipients(author);
        let mut out: Vec<Message> = Vec::new();
        let mut i: usize = 0;
        while i < rs.len()
            invariant
                i <= rs@.len(),
                views(rs@) == resolve_me(views(self.recipients@), author@),
                all_nonempty(views(self.recipients@)) && author@.len() > 0 ==> all_nonempty(views(rs@)),
                activation == activation_of(self.schedule, now),
                out@.len() == i,
                forall|j: int|
                    0 <= j < i ==> {
                        let m = (#[trigger] out@[j])@;
                        &&& m.recipient == lower_of(views(rs@)[j])
                        &&& (m.recipient.len() == 0) == (views(rs@)[j].len() == 0)
                        &&& m.text == self.text@
                        &&& m.author == author@
                        &&& m.channel == channel@
                        &&& m.created == self.created
                        &&& m.activation == activation
                    },
            decreases rs@.len() - i,
        {
            let id = fresh_id(self.created);
            let m = Message::with_id(
                id,
                activation,
                String::from_str(author),
                rs[i].as_str(),
                String::from_str(channel),
                self.created,
                self.text.clone(),
            );
            out.push(m);
            i = i + 1;
        }
        proof {
            if all_nonempty(views(self.recipients@)) && author@.len() > 0 {
                assert forall|j: int| 0 <= j < out@.len() implies (#[trigger] out@[j])@.recipient.len() > 0 by {
                    assert(views(rs@)[j].len() > 0);
                }
            }
        }
        out
    }

    /// The messages for each resolved recipient, expanded now: one per
    /// recipient, none dropped and none added, each with the definition's
    /// text.
    pub fn into_messages(self, author: &str, channel: &str) -> (r: Vec<Message>)
        ensures
            exists|t: Timestamp| expands_to(r@, self, author@, channel@, #[trigger] activation_of(self.schedule, t)),
            all_nonempty(views(self.recipients@)) && author@.len() > 0 ==> all_addressed(r@),
    {
        let t = now();
        self.into_messages_at(author, channel, t)
    }
}

impl core::str::FromStr for MessageDefinition {
    type Err = Error;

    fn from_str(s: &str) -> Result<MessageDefinition, Error> {
        MessageDefinition::parse(s)
    }
}

// ---- recipients: non-empty and distinct ----

pub open spec fn all_nonempty(rs: Seq<Seq<char>>) -> bool {
    forall|i: int| 0 <= i < rs.len() ==> (#[trigger] rs[i]).len() > 0
}

proof fn lemma_add_unique_nonempty(rs: Seq<Seq<char>>, x: Seq<char>)
    requires
        all_nonempty(rs),
        x.len() > 0,
    ensures
        all_nonempty(add_unique(rs, x)),
{
    if !rs.contains(x) {
        assert forall|i: int| 0 <= i < rs.push(x).len() implies (#[trigger] rs.push(x)[i]).len() > 0 by {
            if i < rs.len() {
                assert(rs.push(x)[i] == rs[i]);
            }
        }
    }
}

proof fn lemma_add_unique_distinct(rs: Seq<Seq<char>>, x: Seq<char>)
    requires
        rs.no_duplicates(),
    ensures
        add_unique(rs, x).no_duplicates(),
        add_unique(rs, x).contains(x),
        forall|y: Seq<char>| #[trigger] add_unique(rs, x).contains(y) ==> y == x || rs.contains(y),
{
    if !rs.contains(x) {
        let ps = rs.push(x);
        assert(ps[rs.len() as int] == x);
        assert forall|i: int, j: int| 0 <= i < ps.len() && 0 <= j < ps.len() && i != j implies ps[i] != ps[j] by {
            if i < rs.len() && j < rs.len() {
                assert(ps[i] == rs[i] && ps[j] == rs[j]);
            } else if i < rs.len() {
                assert(ps[i] == rs[i]);
            } else {
                assert(ps[j] == rs[j]);
            }
        }
        assert forall|y: Seq<char>| #[trigger] ps.contains(y) implies y == x || rs.contains(y) by {
            let k = choose|k: int| 0 <= k < ps.len() && ps[k] == y;
            if k < rs.len() {
                assert(rs[k] == y);
            }
        }
    }
}

proof fn lemma_lowered_set_distinct(rs: Seq<Seq<char>>)
    ensures
        lowered_set(rs).no_duplicates(),
    decreases rs.len(),
{
    if rs.len() > 0 {
        lemma_lowered_set_distinct(rs.drop_last());
        lemma_add_unique_distinct(lowered_set(rs.drop_last()), lower_of(rs.last()));
    }
}

proof fn lemma_without_distinct(rs: Seq<Seq<char>>, x: Seq<char>)
    requires
        rs.no_duplicates(),
    ensures
        without(rs, x).no_duplicates(),
        forall|y: Seq<char>| #[trigger] without(rs, x).contains(y) ==> y != x && rs.contains(y),
    decreases rs.len(),
{
    if rs.len() > 0 {
        let d = rs.drop_last();
        assert(d.no_duplicates()) by {
            assert forall|i: int, j: int| 0 <= i < d.len() && 0 <= j < d.len() && i != j implies d[i] != d[j] by {
                assert(d[i] == rs[i] && d[j] == rs[j]);
            }
        }
        lemma_without_distinct(d, x);
        let w = without(d, x);
        assert forall|y: Seq<char>| #[trigger] d.contains(y) implies rs.contains(y) by {
            let k = choose|k: int| 0 <= k < d.len() && d[k] == y;
            assert(rs[k] == y);
        }
        if rs.last() != x {
            assert(!d.contains(rs.last())) by {
                if d.contains(rs.last()) {
                    let k = choose|k: int| 0 <= k < d.len() && d[k] == rs.last();
                    assert(rs[k] == rs[rs.len() - 1]);
                }
            }
            assert(!w.contains(rs.last()));
            lemma_add_unique_distinct(w, rs.last());
            assert(add_unique(w, rs.last()) == w.push(rs.last()));
            assert(rs.contains(rs.last())) by {
                assert(rs[rs.len() - 1] == rs.last());
            }
        }
    }
}

/// After `me` is resolved every recipient appears once; where `me` was
/// among the recipients, exactly one of them is the author.
pub proof fn lemma_resolved_recipients_distinct(rs: Seq<Seq<char>>, author: Seq<char>)
    ensures
        resolve_me(rs, author).no_duplicates(),
        lowered_set(rs).contains(me()) ==> exists|i: int|
            0 <= i < resolve_me(rs, author).len() && resolve_me(rs, author)[i] == lower_of(author)
                && forall|j: int|
                0 <= j < resolve_me(rs, author).len() && j != i ==> (#[trigger] resolve_me(rs, author)[j])
                    != lower_of(author),
{
    let ls = lowered_set(rs);
    lemma_lowered_set_distinct(rs);
    if ls.contains(me()) {
        lemma_without_distinct(ls, me());
        let w = without(ls, me());
        let a = lower_of(author);
        lemma_add_unique_distinct(w, a);
        let res = add_unique(w, a);
        let i = choose|i: int| 0 <= i < res.len() && res[i] == a;
        assert forall|j: int| 0 <= j < res.len() && j != i implies (#[trigger] res[j]) != a by {}
    }
}

/// Expanding a definition whose recipients included `me` gives exactly one
/// message for the author, and one message for each other recipient.
pub proof fn lemma_one_message_for_author(
    msgs: Seq<Message>,
    def: MessageDefinition,
    author: Seq<char>,
    channel: Seq<char>,
    activation: Activation,
)
    requires
        expands_to(msgs, def, author, channel, activation),
        lowered_set(views(def.recipients@)).contains(me()),
    ensures
        exists|i: int|
            0 <= i < msgs.len() && msgs[i]@.recipient == lower_of(lower_of(author)) && forall|j: int|
                0 <= j < msgs.len() && j != i ==> resolve_me(views(def.recipients@), author)[j]
                    != lower_of(author),
        forall|j: int|
            0 <= j < msgs.len() ==> (#[trigger] msgs[j])@.text == def.text@,
{
    lemma_resolved_recipients_distinct(views(def.recipients@), author);
    let res = resolve_me(views(def.recipients@), author);
    let i = choose|i: int|
        0 <= i < res.len() && res[i] == lower_of(author) && forall|j: int|
            0 <= j < res.len() && j != i ==> (#[trigger] res[j]) != lower_of(author);
    assert(msgs[i]@.recipient == lower_of(res[i]));
}

} // verus!
