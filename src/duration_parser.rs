//! Compound duration expressions such as `1y 2mo 3d` or `1h30m`.
//!
//! An expression is one or more `<digits><unit>` tokens, optionally separated
//! by whitespace. Units: `y`, `mo` or `month`, `w`, `d`, `h`, `m`, `s`.
//! Repeated units add up.

use vstd::prelude::*;
use crate::clock::Duration;
use crate::text::{chars_of, digit_value, is_digit, is_digit_char, is_ws, is_ws_char, string_of};

verus! {

#[derive(Clone, Copy, Debug, PartialEq, Eq, Structural)]
pub enum Unit {
    Years,
    Months,
    Weeks,
    Days,
    Hours,
    Minutes,
    Seconds,
}

/// The fixed number of seconds that one of each unit stands for.
pub open spec fn unit_seconds(u: Unit) -> nat {
    match u {
        Unit::Years => 30_779_352,
        Unit::Months => 2_564_946,
        Unit::Weeks => 604_800,
        Unit::Days => 86_400,
        Unit::Hours => 3_600,
        Unit::Minutes => 60,
        Unit::Seconds => 1,
    }
}

#[derive(Debug, Clone, PartialEq, Eq)]
pub enum Error {
    /// The input does not start with a duration token.
    Grammar,
    /// Characters remain after the last token.
    DanglingChars(String),
    /// A number, or the sum for one unit, does not fit 32 bits.
    IntegerOverflow,
}

/// Per-unit counts read from a duration expression.
#[derive(Debug, Default)]
pub struct IntermediateDuration {
    years: u32,
    months: u32,
    weeks: u32,
    days: u32,
    hours: u32,
    minutes: u32,
    seconds: u32,
}

// ---- the grammar, over character sequences ----

pub open spec fn skip_ws(s: Seq<char>, i: int) -> int
    decreases s.len() - i,
{
    if 0 <= i < s.len() && is_ws(s[i]) {
        skip_ws(s, i + 1)
    } else {
        i
    }
}

pub open spec fn digits_end(s: Seq<char>, i: int) -> int
    decreases s.len() - i,
{
    if 0 <= i < s.len() && is_digit(s[i]) {
        digits_end(s, i + 1)
    } else {
        i
    }
}

/// The number written by the digits `s[i..j]`.
pub open spec fn digits_value(s: Seq<char>, i: int, j: int) -> nat
    decreases j - i,
{
    if j <= i {
        0
    } else {
        digits_value(s, i, j - 1) * 10 + digit_value(s[j - 1])
    }
}

/// The unit written at `i`, and where it ends.
pub open spec fn unit_at(s: Seq<char>, i: int) -> Option<(Unit, int)> {
    if !(0 <= i < s.len()) {
        None
    } else if i + 4 < s.len() && s[i] == 'm' && s[i + 1] == 'o' && s[i + 2] == 'n' && s[i + 3]
        == 't' && s[i + 4] == 'h' {
        Some((Unit::Months, i + 5))
    } else if i + 1 < s.len() && s[i] == 'm' && s[i + 1] == 'o' {
        Some((Unit::Months, i + 2))
    } else if s[i] == 'm' {
        Some((Unit::Minutes, i + 1))
    } else if s[i] == 'y' {
        Some((Unit::Years, i + 1))
    } else if s[i] == 'w' {
        Some((Unit::Weeks, i + 1))
    } else if s[i] == 'd' {
        Some((Unit::Days, i + 1))
    } else if s[i] == 'h' {
        Some((Unit::Hours, i + 1))
    } else if s[i] == 's' {
        Some((Unit::Seconds, i + 1))
    } else {
        None
    }
}

/// The token `<digits><unit>` at `i`: its number, its unit and where it ends.
pub open spec fn token_at(s: Seq<char>, i: int) -> Option<(nat, Unit, int)> {
    if 0 <= i < s.len() && is_digit(s[i]) {
        let j = digits_end(s, i);
        match unit_at(s, j) {
            Some((u, k)) => Some((digits_value(s, i, j), u, k)),
            None => None,
        }
    } else {
        None
    }
}

/// The tokens read from `i` on, and the position where reading stopped
/// (after any whitespace that follows the last token).
pub open spec fn scan(s: Seq<char>, i: int) -> (Seq<(nat, Unit)>, int)
    decreases s.len() - i,
{
    let p = skip_ws(s, i);
    match token_at(s, p) {
        Some((v, u, k)) => if k > i && i <= s.len() {
            let rest = scan(s, k);
            (seq![(v, u)] + rest.0, rest.1)
        } else {
            (Seq::empty(), p)
        },
        None => (Seq::empty(), p),
    }
}

/// The sum of the numbers of the tokens with unit `u`.
pub open spec fn unit_total(toks: Seq<(nat, Unit)>, u: Unit) -> nat
    decreases toks.len(),
{
    if toks.len() == 0 {
        0
    } else {
        unit_total(toks.drop_last(), u) + if toks.last().1 == u {
            toks.last().0
        } else {
            0
        }
    }
}

/// The elapsed seconds that the tokens stand for, token by token.
pub open spec fn token_seconds(toks: Seq<(nat, Unit)>) -> nat
    decreases toks.len(),
{
    if toks.len() == 0 {
        0
    } else {
        token_seconds(toks.drop_last()) + toks.last().0 * unit_seconds(toks.last().1)
    }
}

pub open spec fn overflows(toks: Seq<(nat, Unit)>) -> bool {
    exists|u: Unit| unit_total(toks, u) > u32::MAX
}

/// What parsing a duration expression gives.
pub enum DurationOutcome {
    Grammar,
    Dangling(Seq<char>),
    Overflow,
    Parsed(Seq<(nat, Unit)>),
}

pub open spec fn duration_outcome(s: Seq<char>) -> DurationOutcome {
    let (toks, e) = scan(s, 0);
    if toks.len() == 0 {
        DurationOutcome::Grammar
    } else if e < s.len() {
        DurationOutcome::Dangling(s.subrange(e, s.len() as int))
    } else if overflows(toks) {
        DurationOutcome::Overflow
    } else {
        DurationOutcome::Parsed(toks)
    }
}

/// `r` is the result that `o` describes.
pub open spec fn duration_result_agrees(r: Result<IntermediateDuration, Error>, o: DurationOutcome) -> bool {
    match o {
        DurationOutcome::Grammar => r matches Err(Error::Grammar),
        DurationOutcome::Dangling(rest) => match r {
            Err(Error::DanglingChars(t)) => t@ == rest,
            _ => false,
        },
        DurationOutcome::Overflow => r matches Err(Error::IntegerOverflow),
        DurationOutcome::Parsed(toks) => match r {
            Ok(d) => forall|u: Unit| #[trigger] d.count_spec(u) == unit_total(toks, u),
            _ => false,
        },
    }
}

impl IntermediateDuration {
    pub closed spec fn count_spec(&self, u: Unit) -> nat {
        match u {
            Unit::Years => self.years as nat,
            Unit::Months => self.months as nat,
            Unit::Weeks => self.weeks as nat,
            Unit::Days => self.days as nat,
            Unit::Hours => self.hours as nat,
            Unit::Minutes => self.minutes as nat,
            Unit::Seconds => self.seconds as nat,
        }
    }

    /// The elapsed seconds, under the fixed per-unit constants.
    pub open spec fn seconds_spec(&self) -> nat {
        self.count_spec(Unit::Years) * unit_seconds(Unit::Years) + self.count_spec(Unit::Months)
            * unit_seconds(Unit::Months) + self.count_spec(Unit::Weeks) * unit_seconds(Unit::Weeks)
            + self.count_spec(Unit::Days) * unit_seconds(Unit::Days) + self.count_spec(Unit::Hours)
            * unit_seconds(Unit::Hours) + self.count_spec(Unit::Minutes) * unit_seconds(
            Unit::Minutes,
        ) + self.count_spec(Unit::Seconds) * unit_seconds(Unit::Seconds)
    }

    /// The count read for one unit.
    pub fn count(&self, u: Unit) -> (r: u32)
        ensures
            r == self.count_spec(u),
    {
        match u {
            Unit::Years => self.years,
            Unit::Months => self.months,
            Unit::Weeks => self.weeks,
            Unit::Days => self.days,
            Unit::Hours => self.hours,
            Unit::Minutes => self.minutes,
            Unit::Seconds => self.seconds,
        }
    }

    /// The elapsed time that the counts stand for.
    pub fn to_duration(&self) -> (r: Duration)
        ensures
            r.secs == self.seconds_spec(),
    {
        let secs: u64 = self.years as u64 * 30_779_352 + self.months as u64 * 2_564_946
            + self.weeks as u64 * 604_800 + self.days as u64 * 86_400 + self.hours as u64 * 3_600
            + self.minutes as u64 * 60 + self.seconds as u64;
        Duration { secs }
    }

    fn zero() -> (r: IntermediateDuration)
        ensures
            forall|u: Unit| #[trigger] r.count_spec(u) == 0,
    {
        IntermediateDuration {
            years: 0,
            months: 0,
            weeks: 0,
            days: 0,
            hours: 0,
            minutes: 0,
            seconds: 0,
        }
    }

    /// Adds `v` to the count of `u`; on overflow nothing changes and the
    /// result is `false`.
    fn add_count(&mut self, u: Unit, v: u32) -> (ok: bool)
        ensures
            ok == (old(self).count_spec(u) + v <= u32::MAX),
            ok ==> final(self).count_spec(u) == old(self).count_spec(u) + v,
            forall|w: Unit| w != u || !ok ==> #[trigger] final(self).count_spec(w) == old(
                self,
            ).count_spec(w),
    {
        let cur = self.count(u);
        match cur.checked_add(v) {
            None => false,
            Some(n) => {
                match u {
                    Unit::Years => self.years = n,
                    Unit::Months => self.months = n,
                    Unit::Weeks => self.weeks = n,
                    Unit::Days => self.days = n,
                    Unit::Hours => self.hours = n,
                    Unit::Minutes => self.minutes = n,
                    Unit::Seconds => self.seconds = n,
                }
                true
            },
        }
    }

    /// Parses a duration expression (see `duration_outcome`).
    pub fn parse(s: &str) -> (r: Result<IntermediateDuration, Error>)
        ensures
            duration_result_agrees(r, duration_outcome(s@)),
    {
        let cs = chars_of(s);
        let n = cs.len();
        let mut i: usize = 0;
        let mut d = IntermediateDuration::zero();
        let mut overflow = false;
        let mut found = false;
        let ghost mut prefix: Seq<(nat, Unit)> = Seq::empty();
        let mut end: usize;
        loop
            invariant
                cs@ == s@,
                n == cs@.len(),
                i <= n,
                scan(s@, 0).0 == prefix + scan(s@, i as int).0,
                scan(s@, 0).1 == scan(s@, i as int).1,
                found == (prefix.len() > 0),
                overflow == overflows(prefix),
                !overflow ==> forall|u: Unit| #[trigger] d.count_spec(u) == unit_total(prefix, u),
            ensures
                scan(s@, 0).0 == prefix,
                scan(s@, 0).1 == end,
                end <= n,
                found == (prefix.len() > 0),
                overflow == overflows(prefix),
                !overflow ==> forall|u: Unit| #[trigger] d.count_spec(u) == unit_total(prefix, u),
            decreases n - i,
        {
            let p = skip_ws_from(&cs, i);
            match read_token(&cs, p) {
                None => {
                    assert(scan(s@, i as int).0 =~= Seq::<(nat, Unit)>::empty());
                    assert(prefix + Seq::<(nat, Unit)>::empty() =~= prefix);
                    end = p;
                    break;
                },
                Some((val, u, k)) => {
                    let ghost tok = token_at(s@, p as int)->0;
                    let ghost t = (tok.0, u);
                    assert(scan(s@, i as int).0 == seq![t] + scan(s@, k as int).0);
                    assert(prefix.push(t) + scan(s@, k as int).0 =~= prefix + (seq![t] + scan(
                        s@,
                        k as int,
                    ).0));
                    let ghost old_prefix = prefix;
                    proof {
                        prefix = prefix.push(t);
                        assert(prefix.drop_last() =~= old_prefix);
                        assert forall|w: Unit|
                            #[trigger] unit_total(prefix, w) == unit_total(old_prefix, w) + if w
                                == u {
                                t.0
                            } else {
                                0
                            } by {}
                        if overflows(old_prefix) {
                            let w = choose|w: Unit| unit_total(old_prefix, w) > u32::MAX;
                            assert(unit_total(prefix, w) > u32::MAX);
                        }
                    }
                    if !overflow {
                        match val {
                            None => {
                                assert(unit_total(prefix, u) > u32::MAX);
                                overflow = true;
                            },
                            Some(v) => {
                                let ok = d.add_count(u, v);
                                if !ok {
                                    assert(unit_total(prefix, u) > u32::MAX);
                                    overflow = true;
                                } else {
                                    assert(!overflows(prefix)) by {
                                        assert forall|w: Unit| unit_total(prefix, w) <= u32::MAX by {
                                            assert(d.count_spec(w) == unit_total(prefix, w));
                                        }
                                    }
                                }
                            },
                        }
                    } else {
                        assert(overflows(prefix));
                    }
                    found = true;
                    i = k;
                },
            }
        }
        if !found {
            Err(Error::Grammar)
        } else if end < n {
            Err(Error::DanglingChars(string_of(&cs, end, n)))
        } else if overflow {
            Err(Error::IntegerOverflow)
        } else {
            Ok(d)
        }
    }
}

/// The first position at or after `i` that is not whitespace.
pub(crate) fn skip_ws_from(cs: &Vec<char>, i: usize) -> (p: usize)
    requires
        i <= cs@.len(),
    ensures
        p == skip_ws(cs@, i as int),
        i <= p <= cs@.len(),
{
    let mut p = i;
    while p < cs.len() && is_ws_char(cs[p])
        invariant
            i <= p <= cs@.len(),
            skip_ws(cs@, i as int) == skip_ws(cs@, p as int),
        decreases cs@.len() - p,
    {
        p = p + 1;
    }
    p
}

/// Reads the unit at `j` (see `unit_at`).
fn read_unit(cs: &Vec<char>, j: usize) -> (r: Option<(Unit, usize)>)
    requires
        j <= cs@.len(),
    ensures
        match unit_at(cs@, j as int) {
            Some((u, k)) => r == Some((u, k as usize)) && j < k <= cs@.len(),
            None => r is None,
        },
{
    let n = cs.len();
    if j >= n {
        None
    } else if n - j > 4 && cs[j] == 'm' && cs[j + 1] == 'o' && cs[j + 2] == 'n' && cs[j + 3] == 't'
        && cs[j + 4] == 'h' {
        Some((Unit::Months, j + 5))
    } else if n - j > 1 && cs[j] == 'm' && cs[j + 1] == 'o' {
        Some((Unit::Months, j + 2))
    } else if cs[j] == 'm' {
        Some((Unit::Minutes, j + 1))
    } else if cs[j] == 'y' {
        Some((Unit::Years, j + 1))
    } else if cs[j] == 'w' {
        Some((Unit::Weeks, j + 1))
    } else if cs[j] == 'd' {
        Some((Unit::Days, j + 1))
    } else if cs[j] == 'h' {
        Some((Unit::Hours, j + 1))
    } else if cs[j] == 's' {
        Some((Unit::Seconds, j + 1))
    } else {
        None
    }
}

/// Reads the token at `p` (see `token_at`); its number is `None` where it
/// does not fit 32 bits.
fn read_token(cs: &Vec<char>, p: usize) -> (r: Option<(Option<u32>, Unit, usize)>)
    requires
        p <= cs@.len(),
    ensures
        match token_at(cs@, p as int) {
            Some((v, u, k)) => r matches Some((val, ru, rk)) && ru == u && rk == k && p < k
                <= cs@.len() && (val is Some <==> v <= u32::MAX) && (val is Some ==> val->0 == v),
            None => r is None,
        },
{
    if p >= cs.len() || !is_digit_char(cs[p]) {
        return None;
    }
    let mut j = p;
    let mut value: u64 = 0;
    let mut big = false;
    while j < cs.len() && is_digit_char(cs[j])
        invariant
            p <= j <= cs@.len(),
            digits_end(cs@, p as int) == digits_end(cs@, j as int),
            big == (digits_value(cs@, p as int, j as int) > u32::MAX),
            !big ==> value == digits_value(cs@, p as int, j as int),
        decreases cs@.len() - j,
    {
        let c = cs[j];
        let dv = (c as u32 - '0' as u32) as u64;
        assert(digits_value(cs@, p as int, j + 1) == digits_value(cs@, p as int, j as int) * 10
            + digit_value(c));
        if !big {
            value = value * 10 + dv;
            if value > u32::MAX as u64 {
                big = true;
            }
        }
        j = j + 1;
    }
    match read_unit(cs, j) {
        None => None,
        Some((u, k)) => {
            if big {
                Some((None, u, k))
            } else {
                Some((Some(value as u32), u, k))
            }
        },
    }
}

} // verus!

verus! {

pub open spec fn weighted_total(toks: Seq<(nat, Unit)>) -> nat {
    unit_total(toks, Unit::Years) * unit_seconds(Unit::Years) + unit_total(toks, Unit::Months)
        * unit_seconds(Unit::Months) + unit_total(toks, Unit::Weeks) * unit_seconds(Unit::Weeks)
        + unit_total(toks, Unit::Days) * unit_seconds(Unit::Days) + unit_total(toks, Unit::Hours)
        * unit_seconds(Unit::Hours) + unit_total(toks, Unit::Minutes) * unit_seconds(Unit::Minutes)
        + unit_total(toks, Unit::Seconds) * unit_seconds(Unit::Seconds)
}

proof fn lemma_weighted_total(toks: Seq<(nat, Unit)>)
    ensures
        weighted_total(toks) == token_seconds(toks),
    decreases toks.len(),
{
    if toks.len() > 0 {
        lemma_weighted_total(toks.drop_last());
        let (v, u) = toks.last();
        assert forall|w: Unit| #[trigger] unit_total(toks, w) == unit_total(toks.drop_last(), w)
            + if w == u {
            v
        } else {
            0
        } by {}
        assert(token_seconds(toks) == token_seconds(toks.drop_last()) + v * unit_seconds(u));
        let a = unit_total(toks.drop_last(), u);
        assert(unit_total(toks, u) == a + v);
        assert((a + v) * unit_seconds(u) == a * unit_seconds(u) + v * unit_seconds(u))
            by (nonlinear_arith);
        assert(weighted_total(toks) == weighted_total(toks.drop_last()) + v * unit_seconds(u));
    }
}

/// The elapsed time of a parsed expression is the sum, token by token, of
/// each number times its unit's seconds: repeated units add up, so `1d 2d`
/// stands for as many seconds as `3d`.
pub proof fn lemma_parsed_duration_sums_tokens(s: Seq<char>, d: IntermediateDuration)
    requires
        duration_outcome(s) is Parsed,
        forall|u: Unit| #[trigger] d.count_spec(u) == unit_total(duration_outcome(s)->Parsed_0, u),
    ensures
        d.seconds_spec() == token_seconds(duration_outcome(s)->Parsed_0),
{
    let toks = duration_outcome(s)->Parsed_0;
    lemma_weighted_total(toks);
    assert(d.count_spec(Unit::Years) == unit_total(toks, Unit::Years));
    assert(d.count_spec(Unit::Months) == unit_total(toks, Unit::Months));
    assert(d.count_spec(Unit::Weeks) == unit_total(toks, Unit::Weeks));
    assert(d.count_spec(Unit::Days) == unit_total(toks, Unit::Days));
    assert(d.count_spec(Unit::Hours) == unit_total(toks, Unit::Hours));
    assert(d.count_spec(Unit::Minutes) == unit_total(toks, Unit::Minutes));
    assert(d.count_spec(Unit::Seconds) == unit_total(toks, Unit::Seconds));
}

impl core::str::FromStr for IntermediateDuration {
    type Err = Error;

    fn from_str(s: &str) -> Result<IntermediateDuration, Error> {
        IntermediateDuration::parse(s)
    }
}

impl From<IntermediateDuration> for Duration {
    fn from(d: IntermediateDuration) -> (r: Duration) {
        d.to_duration()
    }
}

impl vstd::std_specs::convert::FromSpecImpl<IntermediateDuration> for Duration {
    open spec fn obeys_from_spec() -> bool {
        true
    }

    open spec fn from_spec(d: IntermediateDuration) -> Duration {
        Duration { secs: d.seconds_spec() as u64 }
    }
}

// ---- two expressions joined by a space ----

proof fn lemma_digits_end_bounds(s: Seq<char>, i: int)
    requires
        0 <= i <= s.len(),
    ensures
        i <= digits_end(s, i) <= s.len(),
    decreases s.len() - i,
{
    if i < s.len() && is_digit(s[i]) {
        lemma_digits_end_bounds(s, i + 1);
    }
}

proof fn lemma_skip_ws_bounds(s: Seq<char>, i: int)
    requires
        0 <= i <= s.len(),
    ensures
        i <= skip_ws(s, i) <= s.len(),
    decreases s.len() - i,
{
    if i < s.len() && is_ws(s[i]) {
        lemma_skip_ws_bounds(s, i + 1);
    }
}

/// Where the token at `i` ends, when there is one.
pub open spec fn token_end_of(s: Seq<char>, i: int) -> int {
    match token_at(s, i) {
        Some((_, _, k)) => k,
        None => i,
    }
}

proof fn lemma_token_bounds(s: Seq<char>, i: int)
    requires
        0 <= i <= s.len(),
        token_at(s, i) is Some,
    ensures
        i < token_end_of(s, i) <= s.len(),
{
    lemma_digits_end_bounds(s, i + 1);
}

// Positions in the second part of `s1 + ' ' + s2`, read in `t`.

proof fn lemma_skip_ws_shift(s: Seq<char>, t: Seq<char>, off: int, j: int)
    requires
        0 <= off <= s.len(),
        t == s.subrange(off, s.len() as int),
        0 <= j <= t.len(),
    ensures
        skip_ws(s, off + j) == off + skip_ws(t, j),
    decreases t.len() - j,
{
    if j < t.len() {
        assert(s[off + j] == t[j]);
        if is_ws(t[j]) {
            lemma_skip_ws_shift(s, t, off, j + 1);
        }
    }
}

proof fn lemma_digits_end_shift(s: Seq<char>, t: Seq<char>, off: int, j: int)
    requires
        0 <= off <= s.len(),
        t == s.subrange(off, s.len() as int),
        0 <= j <= t.len(),
    ensures
        digits_end(s, off + j) == off + digits_end(t, j),
    decreases t.len() - j,
{
    if j < t.len() {
        assert(s[off + j] == t[j]);
        if is_digit(t[j]) {
            lemma_digits_end_shift(s, t, off, j + 1);
        }
    }
}

proof fn lemma_digits_value_shift(s: Seq<char>, t: Seq<char>, off: int, i: int, j: int)
    requires
        0 <= off <= s.len(),
        t == s.subrange(off, s.len() as int),
        0 <= i,
        j <= t.len(),
    ensures
        digits_value(s, off + i, off + j) == digits_value(t, i, j),
    decreases j - i,
{
    if j > i {
        lemma_digits_value_shift(s, t, off, i, j - 1);
        assert(s[off + j - 1] == t[j - 1]);
    }
}

proof fn lemma_token_at_shift(s: Seq<char>, t: Seq<char>, off: int, j: int)
    requires
        0 <= off <= s.len(),
        t == s.subrange(off, s.len() as int),
        0 <= j <= t.len(),
    ensures
        token_at(s, off + j) == match token_at(t, j) {
            Some((v, u, k)) => Some((v, u, off + k)),
            None => None,
        },
{
    if j < t.len() {
        assert(s[off + j] == t[j]);
        if is_digit(t[j]) {
            lemma_digits_end_shift(s, t, off, j);
            lemma_digits_end_bounds(t, j);
            let e = digits_end(t, j);
            lemma_digits_value_shift(s, t, off, j, e);
            assert forall|k: int| 0 <= k < t.len() implies s[off + k] == #[trigger] t[k] by {}
        }
    }
}

proof fn lemma_scan_shift(s: Seq<char>, t: Seq<char>, off: int, j: int)
    requires
        0 <= off <= s.len(),
        t == s.subrange(off, s.len() as int),
        0 <= j <= t.len(),
    ensures
        scan(s, off + j) == (scan(t, j).0, off + scan(t, j).1),
    decreases t.len() - j,
{
    lemma_skip_ws_shift(s, t, off, j);
    lemma_skip_ws_bounds(t, j);
    let p = skip_ws(t, j);
    lemma_token_at_shift(s, t, off, p);
    if token_at(t, p) is Some {
        lemma_token_bounds(t, p);
        let k = token_end_of(t, p);
        lemma_scan_shift(s, t, off, k);
    }
}

// Positions in the first part of `s1 + ' ' + s2`.

pub open spec fn joined(s1: Seq<char>, s2: Seq<char>) -> Seq<char> {
    s1 + seq![' '] + s2
}

proof fn lemma_joined_index(s1: Seq<char>, s2: Seq<char>)
    ensures
        joined(s1, s2).len() == s1.len() as int + 1 + s2.len(),
        joined(s1, s2)[s1.len() as int] == ' ',
        forall|k: int| 0 <= k < s1.len() ==> #[trigger] joined(s1, s2)[k] == s1[k],
        s2 == joined(s1, s2).subrange(s1.len() as int + 1, joined(s1, s2).len() as int),
{
    let s = joined(s1, s2);
    assert(s2 =~= s.subrange(s1.len() as int + 1, s.len() as int));
}

proof fn lemma_skip_ws_prefix(s1: Seq<char>, s2: Seq<char>, i: int)
    requires
        0 <= i <= s1.len(),
    ensures
        skip_ws(s1, i) < s1.len() ==> skip_ws(joined(s1, s2), i) == skip_ws(s1, i),
        skip_ws(s1, i) == s1.len() ==> skip_ws(joined(s1, s2), i) == skip_ws(
            joined(s1, s2),
            s1.len() as int + 1,
        ),
    decreases s1.len() - i,
{
    lemma_joined_index(s1, s2);
    lemma_skip_ws_bounds(s1, i);
    if i < s1.len() && is_ws(s1[i]) {
        lemma_skip_ws_prefix(s1, s2, i + 1);
    }
}

proof fn lemma_digits_end_prefix(s1: Seq<char>, s2: Seq<char>, i: int)
    requires
        0 <= i <= s1.len(),
    ensures
        digits_end(joined(s1, s2), i) == digits_end(s1, i),
    decreases s1.len() - i,
{
    lemma_joined_index(s1, s2);
    if i < s1.len() && is_digit(s1[i]) {
        lemma_digits_end_prefix(s1, s2, i + 1);
    }
}

proof fn lemma_digits_value_prefix(s1: Seq<char>, s2: Seq<char>, i: int, j: int)
    requires
        0 <= i,
        j <= s1.len(),
    ensures
        digits_value(joined(s1, s2), i, j) == digits_value(s1, i, j),
    decreases j - i,
{
    lemma_joined_index(s1, s2);
    if j > i {
        lemma_digits_value_prefix(s1, s2, i, j - 1);
    }
}

proof fn lemma_token_at_prefix(s1: Seq<char>, s2: Seq<char>, i: int)
    requires
        0 <= i <= s1.len(),
    ensures
        token_at(joined(s1, s2), i) == token_at(s1, i),
{
    lemma_joined_index(s1, s2);
    if i < s1.len() && is_digit(s1[i]) {
        lemma_digits_end_prefix(s1, s2, i);
        lemma_digits_end_bounds(s1, i);
        lemma_digits_value_prefix(s1, s2, i, digits_end(s1, i));
    }
}

/// `scan` from two positions that skip to the same place reads the same.
proof fn lemma_scan_same_start(s: Seq<char>, i: int, j: int)
    requires
        0 <= i <= j <= s.len(),
        skip_ws(s, i) == skip_ws(s, j),
        j <= skip_ws(s, j) <= s.len(),
    ensures
        scan(s, i) == scan(s, j),
{
    let p = skip_ws(s, j);
    if token_at(s, p) is Some {
        lemma_token_bounds(s, p);
    }
}

proof fn lemma_scan_prefix(s1: Seq<char>, s2: Seq<char>, i: int)
    requires
        0 <= i <= s1.len(),
        scan(s1, i).1 == s1.len(),
    ensures
        scan(joined(s1, s2), i) == (scan(s1, i).0 + scan(s2, 0).0, s1.len() as int + 1 + scan(s2, 0).1),
    decreases s1.len() - i,
{
    let s = joined(s1, s2);
    let off = s1.len() as int + 1;
    lemma_joined_index(s1, s2);
    lemma_skip_ws_bounds(s1, i);
    lemma_skip_ws_prefix(s1, s2, i);
    lemma_scan_shift(s, s2, off, 0);
    let p = skip_ws(s1, i);
    if p < s1.len() {
        lemma_token_at_prefix(s1, s2, p);
        assert(token_at(s1, p) is Some);
        lemma_token_bounds(s1, p);
        let (v, u, k) = token_at(s1, p)->0;
        lemma_scan_prefix(s1, s2, k);
        assert(seq![(v, u)] + (scan(s1, k).0 + scan(s2, 0).0) =~= (seq![(v, u)] + scan(s1, k).0)
            + scan(s2, 0).0);
    } else {
        lemma_skip_ws_shift(s, s2, off, 0);
        lemma_skip_ws_bounds(s2, 0);
        lemma_scan_same_start(s, i, off);
        assert(Seq::<(nat, Unit)>::empty() + scan(s2, 0).0 =~= scan(s2, 0).0);
    }
}

proof fn lemma_scan_bounds(s: Seq<char>, i: int)
    requires
        0 <= i <= s.len(),
    ensures
        i <= scan(s, i).1 <= s.len(),
    decreases s.len() - i,
{
    lemma_skip_ws_bounds(s, i);
    let p = skip_ws(s, i);
    if token_at(s, p) is Some {
        lemma_token_bounds(s, p);
        lemma_scan_bounds(s, token_end_of(s, p));
    }
}

proof fn lemma_unit_total_concat(a: Seq<(nat, Unit)>, b: Seq<(nat, Unit)>, u: Unit)
    ensures
        unit_total(a + b, u) == unit_total(a, u) + unit_total(b, u),
    decreases b.len(),
{
    if b.len() == 0 {
        assert(a + b =~= a);
    } else {
        lemma_unit_total_concat(a, b.drop_last(), u);
        assert((a + b).drop_last() =~= a + b.drop_last());
        assert((a + b).last() == b.last());
    }
}

/// Two expressions joined by a space read as the tokens of both: where the
/// per-unit sums still fit, each count is the sum of the two counts.
pub proof fn lemma_joined_durations_add(s1: Seq<char>, s2: Seq<char>)
    requires
        duration_outcome(s1) is Parsed,
        duration_outcome(s2) is Parsed,
        forall|u: Unit|
            #[trigger] unit_total(duration_outcome(s1)->Parsed_0, u) + unit_total(
                duration_outcome(s2)->Parsed_0,
                u,
            ) <= u32::MAX,
    ensures
        duration_outcome(joined(s1, s2)) is Parsed,
        forall|u: Unit|
            #[trigger] unit_total(duration_outcome(joined(s1, s2))->Parsed_0, u) == unit_total(
                duration_outcome(s1)->Parsed_0,
                u,
            ) + unit_total(duration_outcome(s2)->Parsed_0, u),
{
    let t1 = scan(s1, 0).0;
    let t2 = scan(s2, 0).0;
    assert(t1 == duration_outcome(s1)->Parsed_0);
    assert(t2 == duration_outcome(s2)->Parsed_0);
    lemma_scan_bounds(s1, 0);
    lemma_scan_bounds(s2, 0);
    lemma_scan_prefix(s1, s2, 0);
    lemma_joined_index(s1, s2);
    assert forall|u: Unit| #[trigger] unit_total(t1 + t2, u) == unit_total(t1, u) + unit_total(t2, u) by {
        lemma_unit_total_concat(t1, t2, u);
    }
    assert((t1 + t2).len() > 0);
    assert(!overflows(t1 + t2)) by {
        if overflows(t1 + t2) {
            let u = choose|u: Unit| unit_total(t1 + t2, u) > u32::MAX;
            assert(unit_total(t1, u) + unit_total(t2, u) <= u32::MAX);
        }
    }
}

} // verus!
