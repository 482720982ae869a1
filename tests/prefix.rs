use simple_irc::message::ParseError;
use simple_irc::prefix::Prefix;

fn parts(s: &str) -> (String, Option<String>, Option<String>) {
    let p = Prefix::parse(s).unwrap();
    (p.nick, p.user, p.host)
}

#[test]
fn full_prefix() {
    assert_eq!(
        parts("coolguy!ag@127.0.0.1"),
        ("coolguy".to_string(), Some("ag".to_string()), Some("127.0.0.1".to_string()))
    );
    assert_eq!(Prefix::parse("coolguy!ag@127.0.0.1").unwrap().format(), "coolguy!ag@127.0.0.1");
}

#[test]
fn bare_name_is_the_nick() {
    assert_eq!(parts("irc.example.com"), ("irc.example.com".to_string(), None, None));
    assert_eq!(parts("coolguy@127.0.0.1"), ("coolguy@127.0.0.1".to_string(), None, None));
}

#[test]
fn user_without_host() {
    assert_eq!(parts("coolguy!ag"), ("coolguy".to_string(), Some("ag".to_string()), None));
    assert_eq!(Prefix::parse("coolguy!ag").unwrap().format(), "coolguy!ag");
}

#[test]
fn empty_parts_are_absent() {
    assert_eq!(
        parts("coolguy!@127.0.0.1"),
        ("coolguy".to_string(), None, Some("127.0.0.1".to_string()))
    );
    assert_eq!(Prefix::parse("coolguy!@127.0.0.1").unwrap().format(), "coolguy@127.0.0.1");
    assert_eq!(parts("coolguy!ag@"), ("coolguy".to_string(), Some("ag".to_string()), None));
    assert_eq!(Prefix::parse("coolguy!ag@").unwrap().format(), "coolguy!ag");
}

#[test]
fn empty_nick_is_an_error() {
    assert_eq!(Prefix::parse("!ag@127.0.0.1").err(), Some(ParseError::PrefixError));
    assert_eq!(Prefix::parse("").err(), Some(ParseError::PrefixError));
}

#[test]
fn prefix_from_str() {
    let p: Prefix = "nick!user@host".parse().unwrap();
    assert_eq!(p, Prefix::parse("nick!user@host").unwrap());
    assert_eq!(p.format(), "nick!user@host");
}
