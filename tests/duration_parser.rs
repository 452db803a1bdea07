use tellbot::clock::Duration;
use tellbot::duration_parser::{Error, IntermediateDuration, Unit};

fn seconds_of(s: &str) -> u64 {
    let d: Duration = s.parse::<IntermediateDuration>().unwrap().into();
    d.whole_seconds()
}

#[test]
fn test_parser1() {
    let duration: Duration = "1y 123d 111d 1d 2s"
        .parse::<IntermediateDuration>()
        .unwrap()
        .into();

    assert_eq!(356 + 123 + 111 + 1, duration.whole_days());
}

#[test]
fn test_parser2() {
    let duration: Duration = "1231234s".parse::<IntermediateDuration>().unwrap().into();

    assert_eq!(1231234, duration.whole_seconds());
}

#[test]
fn repeated_units_add_up() {
    assert_eq!(seconds_of("1d 2d"), seconds_of("3d"));
    assert_eq!(seconds_of("1d 2d"), 3 * 86_400);
    let d = IntermediateDuration::parse("1d 2d 5h").unwrap();
    assert_eq!(d.count(Unit::Days), 3);
    assert_eq!(d.count(Unit::Hours), 5);
    assert_eq!(d.count(Unit::Years), 0);
}

#[test]
fn unit_constants() {
    assert_eq!(seconds_of("1y"), 30_779_352);
    assert_eq!(seconds_of("1mo"), 2_564_946);
    assert_eq!(seconds_of("1month"), 2_564_946);
    assert_eq!(seconds_of("1w"), 604_800);
    assert_eq!(seconds_of("1d"), 86_400);
    assert_eq!(seconds_of("1h"), 3_600);
    assert_eq!(seconds_of("1m"), 60);
    assert_eq!(seconds_of("1s"), 1);
}

#[test]
fn adjacent_tokens_and_whitespace() {
    assert_eq!(seconds_of("1h30m"), 5400);
    assert_eq!(seconds_of("  2m\t3s  "), 123);
    assert_eq!(seconds_of("1y 2mo 3d"), 30_779_352 + 2 * 2_564_946 + 3 * 86_400);
}

#[test]
fn grammar_errors() {
    assert_eq!(IntermediateDuration::parse("").unwrap_err(), Error::Grammar);
    assert_eq!(IntermediateDuration::parse("   ").unwrap_err(), Error::Grammar);
    assert_eq!(IntermediateDuration::parse("abc").unwrap_err(), Error::Grammar);
    assert_eq!(IntermediateDuration::parse("12").unwrap_err(), Error::Grammar);
}

#[test]
fn dangling_chars() {
    assert_eq!(
        IntermediateDuration::parse("1d abc").unwrap_err(),
        Error::DanglingChars("abc".to_string())
    );
    assert_eq!(
        IntermediateDuration::parse("1mon").unwrap_err(),
        Error::DanglingChars("n".to_string())
    );
}

#[test]
fn integer_overflow() {
    assert_eq!(IntermediateDuration::parse("4294967296s").unwrap_err(), Error::IntegerOverflow);
    assert_eq!(IntermediateDuration::parse("4294967295s 1s").unwrap_err(), Error::IntegerOverflow);
    assert_eq!(seconds_of("4294967295s"), 4_294_967_295);
}

#[test]
fn largest_counts_fit() {
    let all = "4294967295y 4294967295mo 4294967295w 4294967295d 4294967295h 4294967295m 4294967295s";
    assert_eq!(seconds_of(all), 4_294_967_295u64 * 34_039_159);
}

#[test]
fn joined_expressions_add_counts() {
    let a = IntermediateDuration::parse("1d 2h").unwrap();
    let b = IntermediateDuration::parse("3d 4m").unwrap();
    let c = IntermediateDuration::parse("1d 2h 3d 4m").unwrap();
    for u in [Unit::Years, Unit::Months, Unit::Weeks, Unit::Days, Unit::Hours, Unit::Minutes, Unit::Seconds] {
        assert_eq!(c.count(u), a.count(u) + b.count(u));
    }
    assert_eq!(c.count(Unit::Days), 4);
}
