//! The escape table for tag values: five reserved characters, each written as
//! a backslash followed by a letter.
use vstd::prelude::*;

verus! {

/// The letter that follows the backslash when `c` is written escaped, if `c`
/// is reserved.
pub open spec fn escape_letter(c: char) -> Option<char> {
    if c == ';' {
        Some(':')
    } else if c == ' ' {
        Some('s')
    } else if c == '\\' {
        Some('\\')
    } else if c == '\r' {
        Some('r')
    } else if c == '\n' {
        Some('n')
    } else {
        None
    }
}

/// The character that a backslash followed by `c` stands for: a table letter
/// gives its reserved character, any other character stands for itself.
pub open spec fn unescape_letter(c: char) -> char {
    if c == ':' {
        ';'
    } else if c == 's' {
        ' '
    } else if c == '\\' {
        '\\'
    } else if c == 'r' {
        '\r'
    } else if c == 'n' {
        '\n'
    } else {
        c
    }
}

/// How `c` is written in a tag value.
pub open spec fn escaped_char(c: char) -> Seq<char> {
    match escape_letter(c) {
        Some(l) => seq!['\\', l],
        None => seq![c],
    }
}

/// A tag value as written on the wire.
pub open spec fn escape(v: Seq<char>) -> Seq<char>
    decreases v.len(),
{
    if v.len() == 0 {
        seq![]
    } else {
        escaped_char(v[0]) + escape(v.drop_first())
    }
}

/// A tag value as read from the wire. An unknown letter after a backslash
/// stands for itself, and a backslash at the very end is dropped.
pub open spec fn unescape(r: Seq<char>) -> Seq<char>
    decreases r.len(),
{
    if r.len() == 0 {
        seq![]
    } else if r[0] == '\\' {
        if r.len() == 1 {
            seq![]
        } else {
            seq![unescape_letter(r[1])] + unescape(r.skip(2))
        }
    } else {
        seq![r[0]] + unescape(r.drop_first())
    }
}

/// The escape letter for `c`, or `None` when `c` is written as it is.
pub fn escape_char(c: char) -> (r: Option<char>)
    ensures
        r == escape_letter(c),
{
    match c {
        ';' => Some(':'),
        ' ' => Some('s'),
        '\\' => Some('\\'),
        '\r' => Some('r'),
        '\n' => Some('n'),
        _ => None,
    }
}

/// The character that a backslash followed by `c` stands for.
pub fn unescape_char(c: char) -> (r: char)
    ensures
        r == unescape_letter(c),
{
    match c {
        ':' => ';',
        's' => ' ',
        '\\' => '\\',
        'r' => '\r',
        'n' => '\n',
        _ => c,
    }
}

/// Unescaping the escape letter of a reserved character gives that character back.
pub proof fn lemma_unescape_escape_char(c: char)
    requires
        escape_letter(c) is Some,
    ensures
        unescape_letter(escape_letter(c)->0) == c,
{
}

/// Unescaping an escaped value gives the value back, whatever it holds.
pub proof fn lemma_unescape_escape(v: Seq<char>)
    ensures
        unescape(escape(v)) == v,
    decreases v.len(),
{
    if v.len() > 0 {
        let rest = escape(v.drop_first());
        lemma_unescape_escape(v.drop_first());
        let e = escape(v);
        assert(e == escaped_char(v[0]) + rest);
        if escape_letter(v[0]) is Some {
            assert(e.skip(2) =~= rest);
        } else {
            assert(e.drop_first() =~= rest);
        }
        assert(v =~= seq![v[0]] + v.drop_first());
    }
}

/// No escaped value holds a space or a `;`.
pub proof fn lemma_escape_plain(v: Seq<char>)
    ensures
        forall|i: int| 0 <= i < escape(v).len() ==> escape(v)[i] != ' ' && escape(v)[i] != ';',
    decreases v.len(),
{
    if v.len() > 0 {
        lemma_escape_plain(v.drop_first());
        let a = escaped_char(v[0]);
        let b = escape(v.drop_first());
        assert forall|i: int| 0 <= i < escape(v).len() implies escape(v)[i] != ' ' && escape(
            v,
        )[i] != ';' by {
            if i >= a.len() {
                assert(escape(v)[i] == b[i - a.len()]);
            }
        }
    }
}

} // verus!
