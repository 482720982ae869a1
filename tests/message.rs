use simple_irc::message::{Message, ParseError};
use simple_irc::tags::Tags;

fn strings(items: &[&str]) -> Vec<String> {
    items.iter().map(|s| s.to_string()).collect()
}

fn tag_pairs(tags: &Tags) -> Vec<(String, String)> {
    (0..tags.len())
        .map(|i| {
            let (k, v) = tags.entry(i);
            (k.clone(), v.clone())
        })
        .collect()
}

#[test]
fn escaped_tag_value() {
    let m = Message::parse("@a=b\\:c\\sd PING").unwrap();
    assert_eq!(m.tags.get("a"), Some(&"b;c d".to_string()));
    assert_eq!(m.command, "PING");
    assert!(m.params.is_empty());
}

#[test]
fn complex_literal_example() {
    let m = Message::parse("@a=b;c=d;e=\\\\ :hello-world PING PONG :EXTRA").unwrap();
    assert_eq!(
        tag_pairs(&m.tags),
        vec![
            ("a".to_string(), "b".to_string()),
            ("c".to_string(), "d".to_string()),
            ("e".to_string(), "\\".to_string()),
        ]
    );
    assert_eq!(m.prefix, Some("hello-world".to_string()));
    assert_eq!(m.command, "PING");
    assert_eq!(m.params, strings(&["PONG", "EXTRA"]));
}

#[test]
fn simple_ping() {
    let m = Message::parse("PING :PONG").unwrap();
    assert!(m.tags.is_empty());
    assert_eq!(m.prefix, None);
    assert_eq!(m.command, "PING");
    assert_eq!(m.params, strings(&["PONG"]));
    assert_eq!(m.format(), "PING :PONG");
}

#[test]
fn trailing_parameter_with_spaces() {
    let m = Message::parse("CMD a b :c d").unwrap();
    assert_eq!(m.command, "CMD");
    assert_eq!(m.params, strings(&["a", "b", "c d"]));
}

#[test]
fn trailing_parameter_keeps_colons_and_may_be_empty() {
    let m = Message::parse("CMD a :b :c").unwrap();
    assert_eq!(m.params, strings(&["a", "b :c"]));
    let m = Message::parse("CMD a :").unwrap();
    assert_eq!(m.params, strings(&["a", ""]));
}

#[test]
fn empty_value_tag() {
    let m = Message::parse("@k;j=1 CMD").unwrap();
    assert_eq!(
        tag_pairs(&m.tags),
        vec![
            ("j".to_string(), "1".to_string()),
            ("k".to_string(), "".to_string()),
        ]
    );
    assert_eq!(m.tags.get("k"), Some(&String::new()));
    assert_eq!(m.format(), "@j=1;k CMD");
}

#[test]
fn empty_line_has_no_command() {
    assert_eq!(Message::parse("").err(), Some(ParseError::CommandError));
    assert_eq!(Message::parse("\r\n").err(), Some(ParseError::CommandError));
}

#[test]
fn tag_block_with_nothing_after() {
    assert_eq!(Message::parse("@a=b ").err(), Some(ParseError::CommandError));
    assert_eq!(Message::parse("@a=b").err(), Some(ParseError::TagBlockError));
    assert_eq!(Message::parse("@").err(), Some(ParseError::TagBlockError));
}

#[test]
fn prefix_errors() {
    assert_eq!(Message::parse(":nick").err(), Some(ParseError::PrefixError));
    assert_eq!(Message::parse(":nick ").err(), Some(ParseError::CommandError));
    assert_eq!(Message::parse("@a=b :nick").err(), Some(ParseError::PrefixError));
}

#[test]
fn leading_space_gives_empty_command() {
    assert_eq!(Message::parse(" PING").err(), Some(ParseError::CommandError));
}

#[test]
fn line_terminators_are_dropped() {
    let m = Message::parse("PING :x y\r\n").unwrap();
    assert_eq!(m.params, strings(&["x y"]));
    let m = Message::parse("PING x\n").unwrap();
    assert_eq!(m.params, strings(&["x"]));
    let m = Message::parse("PING x\r").unwrap();
    assert_eq!(m.params, strings(&["x"]));
    let m = Message::parse("PING :x\n\r").unwrap();
    assert_eq!(m.params, strings(&["x\n"]));
}

#[test]
fn runs_of_spaces_separate_once() {
    let m = Message::parse("@a=1   :pfx   CMD   a    b   ").unwrap();
    assert_eq!(m.tags.get("a"), Some(&"1".to_string()));
    assert_eq!(m.prefix, Some("pfx".to_string()));
    assert_eq!(m.command, "CMD");
    assert_eq!(m.params, strings(&["a", "b"]));
}

#[test]
fn unknown_escape_and_trailing_backslash() {
    let m = Message::parse("@a=\\x\\y;b=z\\ CMD").unwrap();
    assert_eq!(m.tags.get("a"), Some(&"xy".to_string()));
    assert_eq!(m.tags.get("b"), Some(&"z".to_string()));
}

#[test]
fn every_escape_of_the_table() {
    let m = Message::parse("@t=\\:\\s\\\\\\r\\n CMD").unwrap();
    assert_eq!(m.tags.get("t"), Some(&"; \\\r\n".to_string()));
}

#[test]
fn duplicate_tag_last_wins() {
    let m = Message::parse("@a=1;b=2;a=3 CMD").unwrap();
    assert_eq!(m.tags.len(), 2);
    assert_eq!(m.tags.get("a"), Some(&"3".to_string()));
    assert_eq!(m.tags.get("b"), Some(&"2".to_string()));
}

#[test]
fn empty_tag_block_and_empty_names() {
    let m = Message::parse("@ CMD").unwrap();
    assert!(m.tags.is_empty());
    assert_eq!(m.command, "CMD");
    let m = Message::parse("@;=x;a CMD").unwrap();
    assert_eq!(tag_pairs(&m.tags), vec![("a".to_string(), "".to_string())]);
}

#[test]
fn tag_value_keeps_equals_signs() {
    let m = Message::parse("@a=b=c CMD").unwrap();
    assert_eq!(m.tags.get("a"), Some(&"b=c".to_string()));
    assert_eq!(m.tags.get("z"), None);
}

#[test]
fn numeric_command() {
    let m = Message::parse(":irc.example.com 001 nick :Welcome home").unwrap();
    assert_eq!(m.prefix, Some("irc.example.com".to_string()));
    assert_eq!(m.command, "001");
    assert_eq!(m.params, strings(&["nick", "Welcome home"]));
}

#[test]
fn non_ascii_text() {
    let m = Message::parse("@n=é\\sü :ñick PRIVMSG #ç :héllo wörld").unwrap();
    assert_eq!(m.tags.get("n"), Some(&"é ü".to_string()));
    assert_eq!(m.prefix, Some("ñick".to_string()));
    assert_eq!(m.params, strings(&["#ç", "héllo wörld"]));
    assert_eq!(m.format(), "@n=é\\sü :ñick PRIVMSG #ç :héllo wörld");
}

#[test]
fn format_escapes_tag_values() {
    let mut tags = Tags::new();
    tags.insert("a".to_string(), "b; c\\d\r\n".to_string());
    let m = Message::new_with_all(tags, None, "CMD".to_string(), Vec::new());
    assert_eq!(m.format(), "@a=b\\:\\sc\\\\d\\r\\n CMD");
}

#[test]
fn format_last_param_always_trailing() {
    let m = Message::new("PRIVMSG".to_string(), strings(&["#chan", "hi"]));
    assert_eq!(m.format(), "PRIVMSG #chan :hi");
    let m = Message::new("QUIT".to_string(), Vec::new());
    assert_eq!(m.format(), "QUIT");
}

#[test]
fn format_with_prefix() {
    let m = Message::new_with_prefix(
        "JOIN".to_string(),
        strings(&["#chan"]),
        "nick!user@host".to_string(),
    );
    assert!(m.tags.is_empty());
    assert_eq!(m.prefix, Some("nick!user@host".to_string()));
    assert_eq!(m.format(), ":nick!user@host JOIN :#chan");
}

#[test]
fn round_trip_of_a_full_message() {
    let mut tags = Tags::new();
    tags.insert("time".to_string(), "2020-01-01T00:00:00Z".to_string());
    tags.insert("msgid".to_string(), "a;b c\\d".to_string());
    tags.insert("flag".to_string(), String::new());
    let m = Message::new_with_all(
        tags,
        Some("nick!user@host".to_string()),
        "PRIVMSG".to_string(),
        strings(&["#chan", "hello :there you"]),
    );
    let line = m.format();
    assert_eq!(
        line,
        "@flag;msgid=a\\:b\\sc\\\\d;time=2020-01-01T00:00:00Z :nick!user@host PRIVMSG #chan :hello :there you"
    );
    let back = Message::parse(&line).unwrap();
    assert_eq!(tag_pairs(&back.tags), tag_pairs(&m.tags));
    assert_eq!(back.prefix, m.prefix);
    assert_eq!(back.command, m.command);
    assert_eq!(back.params, m.params);
}

#[test]
fn round_trip_of_a_bare_command() {
    let m = Message::new("PING".to_string(), Vec::new());
    let back = Message::parse(&m.format()).unwrap();
    assert!(back.tags.is_empty());
    assert_eq!(back.prefix, None);
    assert_eq!(back.command, "PING");
    assert!(back.params.is_empty());
}

#[test]
fn from_str_matches_parse() {
    let m: Message = "@a=b :src CMD x :y z".parse().unwrap();
    assert_eq!(m, Message::parse("@a=b :src CMD x :y z").unwrap());
    let e = "@a=b".parse::<Message>().unwrap_err();
    assert_eq!(e, ParseError::TagBlockError);
}

#[test]
fn round_trip_gives_an_equal_message() {
    let mut tags = Tags::new();
    tags.insert("b".to_string(), "x y".to_string());
    tags.insert("a".to_string(), String::new());
    let m = Message::new_with_all(
        tags,
        None,
        "NOTICE".to_string(),
        strings(&["*", "a:b", ""]),
    );
    assert_eq!(m.format(), "@a;b=x\\sy NOTICE * a:b :");
    assert_eq!(Message::parse(&m.format()).unwrap(), m);
}
