use simple_irc::{Message, Prefix, Tags};

fn strings(items: &[&str]) -> Vec<String> {
    items.iter().map(|s| s.to_string()).collect()
}

fn sorted_pairs(pairs: &[(&str, &str)]) -> Vec<(String, String)> {
    let mut v: Vec<(String, String)> = pairs
        .iter()
        .map(|(k, v)| (k.to_string(), v.to_string()))
        .collect();
    v.sort();
    v
}

fn tag_pairs(tags: &Tags) -> Vec<(String, String)> {
    (0..tags.len())
        .map(|i| {
            let (k, v) = tags.entry(i);
            (k.clone(), v.clone())
        })
        .collect()
}

fn check_split(input: &str, tags: &[(&str, &str)], source: Option<&str>, verb: &str, params: &[&str]) {
    let res = input.parse::<Message>();
    assert!(res.is_ok(), "msg failed: {:?}, err {:?}", input, res.as_ref().err());
    let msg = res.unwrap();
    assert_eq!(tag_pairs(&msg.tags), sorted_pairs(tags), "tags of {:?}", input);
    assert_eq!(msg.prefix, source.map(|s| s.to_string()), "prefix of {:?}", input);
    assert_eq!(msg.command, verb, "command of {:?}", input);
    assert_eq!(msg.params, strings(params), "params of {:?}", input);
}

#[test]
fn test_msg_split() {
    check_split("foo bar baz asdf", &[], None, "foo", &["bar", "baz", "asdf"]);
    check_split(":coolguy foo bar baz asdf", &[], Some("coolguy"), "foo", &["bar", "baz", "asdf"]);
    check_split("foo bar baz :asdf quux", &[], None, "foo", &["bar", "baz", "asdf quux"]);
    check_split("foo bar baz :", &[], None, "foo", &["bar", "baz", ""]);
    check_split("foo bar baz ::asdf", &[], None, "foo", &["bar", "baz", ":asdf"]);
    check_split(
        ":coolguy foo bar baz :  asdf quux ",
        &[],
        Some("coolguy"),
        "foo",
        &["bar", "baz", "  asdf quux "],
    );
    check_split(":coolguy PRIVMSG bar :lol :) ", &[], Some("coolguy"), "PRIVMSG", &["bar", "lol :) "]);
    check_split(
        "@a=b;c=32;k;rt=ql7 foo",
        &[("a", "b"), ("c", "32"), ("k", ""), ("rt", "ql7")],
        None,
        "foo",
        &[],
    );
    check_split(
        "@a=b\\\\and\\nk;c=72\\s45;d=gh\\:764 foo",
        &[("a", "b\\and\nk"), ("c", "72 45"), ("d", "gh;764")],
        None,
        "foo",
        &[],
    );
    check_split(
        "@c;h=;a=b :quux ab cd",
        &[("c", ""), ("h", ""), ("a", "b")],
        Some("quux"),
        "ab",
        &["cd"],
    );
    check_split(":src JOIN #chan", &[], Some("src"), "JOIN", &["#chan"]);
    check_split(":src JOIN :#chan", &[], Some("src"), "JOIN", &["#chan"]);
    check_split(":src AWAY", &[], Some("src"), "AWAY", &[]);
    check_split(":src AWAY ", &[], Some("src"), "AWAY", &[]);
    check_split(":cool\tguy foo bar baz", &[], Some("cool\tguy"), "foo", &["bar", "baz"]);
    check_split(
        "@tag1=value1;tag2;vendor1/tag3=value2;vendor2/tag4 :irc.example.com COMMAND param1 param2 :param3 param3",
        &[("tag1", "value1"), ("tag2", ""), ("vendor1/tag3", "value2"), ("vendor2/tag4", "")],
        Some("irc.example.com"),
        "COMMAND",
        &["param1", "param2", "param3 param3"],
    );
    check_split(
        "@foo=\\\\\\\\\\:\\\\s\\s\\r\\n COMMAND",
        &[("foo", "\\\\;\\s \r\n")],
        None,
        "COMMAND",
        &[],
    );
}

fn check_join(tags: &[(&str, &str)], source: Option<&str>, verb: &str, params: &[&str], matches: &[&str]) {
    let mut t = Tags::new();
    for (k, v) in tags {
        t.insert(k.to_string(), v.to_string());
    }
    let msg = Message::new_with_all(t, source.map(|s| s.to_string()), verb.to_string(), strings(params));
    let out = msg.format();
    assert!(
        matches.contains(&out.as_str()),
        "expected one of: {:?}, got: {:?}",
        matches,
        out
    );
}

#[test]
fn test_msg_join() {
    check_join(&[], None, "foo", &["bar", "baz", "asdf"], &["foo bar baz asdf", "foo bar baz :asdf"]);
    check_join(
        &[],
        Some("coolguy"),
        "foo",
        &["bar", "baz", "asdf"],
        &[":coolguy foo bar baz asdf", ":coolguy foo bar baz :asdf"],
    );
    check_join(&[], None, "foo", &["bar", "baz", "asdf quux"], &["foo bar baz :asdf quux"]);
    check_join(&[], None, "foo", &["bar", "baz", ""], &["foo bar baz :"]);
    check_join(&[], None, "foo", &["bar", "baz", ":asdf"], &["foo bar baz ::asdf"]);
    check_join(
        &[],
        Some("coolguy"),
        "foo",
        &["bar", "baz", "asdf quux"],
        &[":coolguy foo bar baz :asdf quux"],
    );
    check_join(
        &[],
        Some("coolguy"),
        "foo",
        &["b\tar", "baz"],
        &[":coolguy foo b\tar baz", ":coolguy foo b\tar :baz"],
    );
    check_join(&[("asd", "")], Some("coolguy"), "foo", &["bar", "baz", "  "], &["@asd :coolguy foo bar baz :  "]);
    check_join(
        &[("a", "b\\and\nk"), ("d", "gh;764")],
        None,
        "foo",
        &[],
        &["@a=b\\\\and\\nk;d=gh\\:764 foo", "@d=gh\\:764;a=b\\\\and\\nk foo"],
    );
    check_join(
        &[("a", "b\\and\nk"), ("d", "gh;764")],
        None,
        "foo",
        &["par1", "par2"],
        &["@a=b\\\\and\\nk;d=gh\\:764 foo par1 par2", "@a=b\\\\and\\nk;d=gh\\:764 foo par1 :par2"],
    );
    check_join(&[("key", "value")], None, "foo", &["bar"], &["@key=value foo bar", "@key=value foo :bar"]);
}

#[test]
fn test_userhost_split() {
    let cases: [(&str, &str, Option<&str>, Option<&str>); 7] = [
        ("coolguy", "coolguy", None, None),
        ("coolguy!ag@127.0.0.1", "coolguy", Some("ag"), Some("127.0.0.1")),
        ("coolguy!~ag@localhost", "coolguy", Some("~ag"), Some("localhost")),
        ("coolguy!@127.0.0.1", "coolguy", None, Some("127.0.0.1")),
        ("coolguy!ag@", "coolguy", Some("ag"), None),
        ("coolguy!ag@net\x035w\x03ork.admin", "coolguy", Some("ag"), Some("net\x035w\x03ork.admin")),
        (
            "coolguy!~ag@n\x02et\x0305w\x0fork.admin",
            "coolguy",
            Some("~ag"),
            Some("n\x02et\x0305w\x0fork.admin"),
        ),
    ];
    for (source, nick, user, host) in cases {
        let prefix: Prefix = source.parse().unwrap();
        assert_eq!(prefix.nick, nick);
        assert_eq!(prefix.user, user.map(|s| s.to_string()), "{}", source);
        assert_eq!(prefix.host, host.map(|s| s.to_string()));
        // Empty user or host parts are dropped, so these do not write back
        // byte for byte.
        match source {
            "coolguy!@127.0.0.1" => continue,
            "coolguy!ag@" => continue,
            _ => {}
        }
        assert_eq!(prefix.format(), source);
    }
    // An empty nick is not a prefix.
    assert!("!ag@127.0.0.1".parse::<Prefix>().is_err());
}
