use simple_irc::escape::{escape_char, unescape_char};

#[test]
fn escape_table() {
    assert_eq!(escape_char(';'), Some(':'));
    assert_eq!(escape_char(' '), Some('s'));
    assert_eq!(escape_char('\\'), Some('\\'));
    assert_eq!(escape_char('\r'), Some('r'));
    assert_eq!(escape_char('\n'), Some('n'));
    assert_eq!(escape_char('a'), None);
    assert_eq!(escape_char(':'), None);
}

#[test]
fn unescape_inverts_escape() {
    for c in [';', ' ', '\\', '\r', '\n'] {
        assert_eq!(unescape_char(escape_char(c).unwrap()), c);
    }
}

#[test]
fn unknown_escape_letter_stands_for_itself() {
    assert_eq!(unescape_char('x'), 'x');
    assert_eq!(unescape_char(';'), ';');
}
