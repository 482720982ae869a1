//! Formatting a well-formed message and parsing the line gives the message back.
use vstd::prelude::*;

use crate::escape::{escape, lemma_escape_plain, lemma_unescape_escape, unescape};
use crate::message::{
    add_component, entry_text, format_line, params_of, params_text, parse_after_tags,
    parse_command, parse_line, prefix_part, strip_line_end, tag_part, tags_from, tags_text,
    MessageModel, ParseError,
};
use crate::tags::{key_lt, lemma_sorted_insert_last, sorted, sorted_insert};
use crate::text::{find, lacks, lemma_find_bounds, lemma_find_concat, trim_spaces};

verus! {

/// A tag name: not empty, and free of the characters that delimit tags and lines.
pub open spec fn is_tag_name(k: Seq<char>) -> bool {
    &&& k.len() > 0
    &&& forall|i: int|
        0 <= i < k.len() ==> {
            let c = #[trigger] k[i];
            c != ' ' && c != ';' && c != '=' && c != '\0' && c != '\r' && c != '\n'
        }
}

/// Text that may stand in a line: no carriage return, no line feed.
pub open spec fn is_line_text(s: Seq<char>) -> bool {
    lacks(s, '\r') && lacks(s, '\n')
}

/// A token: line text without spaces.
pub open spec fn is_token(s: Seq<char>) -> bool {
    is_line_text(s) && lacks(s, ' ')
}

/// Parameters that format into a line that parses back: every one is line
/// text, and all but the last are non-empty tokens that do not start with `:`.
pub open spec fn params_well_formed(ps: Seq<Seq<char>>) -> bool {
    &&& forall|i: int| 0 <= i < ps.len() ==> is_line_text(#[trigger] ps[i])
    &&& forall|i: int|
        0 <= i < ps.len() - 1 ==> {
            let p = #[trigger] ps[i];
            p.len() > 0 && is_token(p) && p[0] != ':'
        }
}

/// A message whose canonical line parses back to it: tags in key order under
/// valid names, a prefix without spaces, a command token that does not start
/// with `@` or `:`, and well-formed parameters. Tag values may hold anything.
pub open spec fn well_formed(m: MessageModel) -> bool {
    &&& sorted(m.tags)
    &&& forall|i: int| 0 <= i < m.tags.len() ==> is_tag_name(#[trigger] m.tags[i].0)
    &&& m.prefix matches Some(p) ==> is_token(p)
    &&& m.command.len() > 0
    &&& is_token(m.command)
    &&& m.command[0] != '@'
    &&& m.command[0] != ':'
    &&& params_well_formed(m.params)
}

proof fn lemma_lacks_concat(a: Seq<char>, b: Seq<char>, c: char)
    requires
        lacks(a, c),
        lacks(b, c),
    ensures
        lacks(a + b, c),
{
    assert forall|i: int| 0 <= i < (a + b).len() implies (a + b)[i] != c by {
        if i >= a.len() {
            assert((a + b)[i] == b[i - a.len()]);
        }
    }
}

/// A space-free start of a line is skipped over by `find`, and whatever
/// follows a space stays.
proof fn lemma_token_then_space(a: Seq<char>, rest: Seq<char>)
    requires
        lacks(a, ' '),
    ensures
        find(a + (seq![' '] + rest), ' ') == a.len(),
        (a + (seq![' '] + rest)).take(a.len() as int) == a,
        (a + (seq![' '] + rest)).skip(a.len() as int) == seq![' '] + rest,
{
    lemma_find_concat(a, seq![' '] + rest, ' ');
    assert((a + (seq![' '] + rest)).take(a.len() as int) =~= a);
    assert((a + (seq![' '] + rest)).skip(a.len() as int) =~= seq![' '] + rest);
}

/// One space before a text that does not start with a space is trimmed away.
proof fn lemma_trim_one_space(x: Seq<char>)
    requires
        x.len() > 0,
        x[0] != ' ',
    ensures
        trim_spaces(seq![' '] + x) == x,
{
    assert((seq![' '] + x).drop_first() =~= x);
    assert(trim_spaces(x) == x);
}

/// The written form of one tag holds no `;` and no space.
proof fn lemma_entry_text_plain(e: (Seq<char>, Seq<char>))
    requires
        is_tag_name(e.0),
    ensures
        lacks(entry_text(e), ';'),
        lacks(entry_text(e), ' '),
{
    lemma_escape_plain(e.1);
    if e.1.len() > 0 {
        let t = e.0 + seq!['='];
        lemma_lacks_concat(e.0, seq!['='], ';');
        lemma_lacks_concat(e.0, seq!['='], ' ');
        lemma_lacks_concat(t, escape(e.1), ';');
        lemma_lacks_concat(t, escape(e.1), ' ');
    }
}

/// The tag block holds no space.
proof fn lemma_tags_text_no_space(es: Seq<(Seq<char>, Seq<char>)>)
    requires
        forall|i: int| 0 <= i < es.len() ==> is_tag_name(#[trigger] es[i].0),
    ensures
        lacks(tags_text(es), ' '),
    decreases es.len(),
{
    if es.len() == 1 {
        lemma_entry_text_plain(es[0]);
    } else if es.len() > 1 {
        let init = es.drop_last();
        assert forall|i: int| 0 <= i < init.len() implies is_tag_name(#[trigger] init[i].0) by {
            assert(init[i] == es[i]);
        }
        lemma_tags_text_no_space(init);
        lemma_entry_text_plain(es.last());
        lemma_lacks_concat(tags_text(init), seq![';'], ' ');
        lemma_lacks_concat(tags_text(init) + seq![';'], entry_text(es.last()), ' ');
    }
}

/// Reading one written tag inserts it.
proof fn lemma_component_round_trip(acc: Seq<(Seq<char>, Seq<char>)>, e: (Seq<char>, Seq<char>))
    requires
        is_tag_name(e.0),
    ensures
        tags_from(acc, entry_text(e)) == sorted_insert(acc, e.0, e.1),
{
    let t = entry_text(e);
    lemma_entry_text_plain(e);
    lemma_find_concat(t, seq![], ';');
    assert(t + seq![] =~= t);
    assert(t.take(t.len() as int) =~= t);
    lemma_unescape_escape(e.1);
    let k = e.0;
    assert(lacks(k, '='));
    if e.1.len() == 0 {
        lemma_find_concat(k, seq![], '=');
        assert(k + seq![] =~= k);
        assert(k.take(k.len() as int) =~= k);
        assert(unescape(seq![]) =~= seq![]);
    } else {
        let rest = seq!['='] + escape(e.1);
        lemma_find_concat(k, rest, '=');
        assert(t =~= k + rest);
        assert(t.take(k.len() as int) =~= k);
        assert(t.skip(k.len() as int + 1) =~= escape(e.1));
    }
    assert(add_component(acc, t) == sorted_insert(acc, e.0, e.1));
}

/// Reading a tag block component by component: what comes before a `;` is
/// read first, then what follows it.
proof fn lemma_tags_from_split(acc: Seq<(Seq<char>, Seq<char>)>, a: Seq<char>, b: Seq<char>)
    ensures
        tags_from(acc, a + seq![';'] + b) == tags_from(tags_from(acc, a), b),
    decreases a.len(),
{
    let s = a + seq![';'] + b;
    let e = find(a, ';');
    lemma_find_bounds(a, ';');
    if e == a.len() {
        assert(a.take(e) =~= a);
        lemma_find_concat(a, seq![';'] + b, ';');
        assert(s =~= a + (seq![';'] + b));
        assert(s.take(e) =~= a);
        assert(s.skip(e + 1) =~= b);
    } else {
        let a2 = a.skip(e + 1);
        lemma_find_concat(a.take(e), a.skip(e) + seq![';'] + b, ';');
        assert(s =~= a.take(e) + (a.skip(e) + seq![';'] + b));
        assert(s.take(e) =~= a.take(e));
        assert(s.skip(e + 1) =~= a2 + seq![';'] + b);
        lemma_tags_from_split(add_component(acc, a.take(e)), a2, b);
    }
}

/// Reading the written tags gives them back.
proof fn lemma_tags_round_trip(es: Seq<(Seq<char>, Seq<char>)>)
    requires
        sorted(es),
        forall|i: int| 0 <= i < es.len() ==> is_tag_name(#[trigger] es[i].0),
    ensures
        tags_from(seq![], tags_text(es)) == es,
    decreases es.len(),
{
    if es.len() == 0 {
        assert(find(seq![], '=') == 0);
    } else {
        let init = es.drop_last();
        let last = es.last();
        assert(is_tag_name(es[es.len() - 1].0));
        assert forall|j: int| 0 <= j < init.len() implies key_lt(
            #[trigger] init[j].0,
            last.0,
        ) by {
            assert(init[j] == es[j]);
            assert(key_lt(es[j].0, es[es.len() - 1].0));
        }
        lemma_sorted_insert_last(init, last.0, last.1);
        assert(init.push(last) =~= es);
        if es.len() == 1 {
            lemma_component_round_trip(seq![], last);
            assert(init =~= seq![]);
        } else {
            assert forall|i: int, j: int| 0 <= i < j < init.len() implies key_lt(
                #[trigger] init[i].0,
                #[trigger] init[j].0,
            ) by {
                assert(init[i] == es[i] && init[j] == es[j]);
            }
            assert forall|i: int| 0 <= i < init.len() implies is_tag_name(#[trigger] init[i].0) by {
                assert(init[i] == es[i]);
            }
            lemma_tags_round_trip(init);
            lemma_tags_from_split(seq![], tags_text(init), entry_text(last));
            lemma_component_round_trip(init, last);
        }
    }
}

/// Line text stays line text when parameters are written out.
proof fn lemma_params_text_line(ps: Seq<Seq<char>>, c: char)
    requires
        c != ' ' && c != ':',
        forall|i: int| 0 <= i < ps.len() ==> lacks(#[trigger] ps[i], c),
    ensures
        lacks(params_text(ps), c),
    decreases ps.len(),
{
    if ps.len() == 1 {
        lemma_lacks_concat(seq![' ', ':'], ps[0], c);
    } else if ps.len() > 1 {
        let t = ps.drop_first();
        assert forall|i: int| 0 <= i < t.len() implies lacks(#[trigger] t[i], c) by {
            assert(t[i] == ps[i + 1]);
        }
        lemma_params_text_line(t, c);
        lemma_lacks_concat(seq![' '], ps[0], c);
        lemma_lacks_concat(seq![' '] + ps[0], params_text(t), c);
    }
}

/// Reading the written parameters gives them back.
proof fn lemma_params_round_trip(ps: Seq<Seq<char>>)
    requires
        params_well_formed(ps),
    ensures
        params_of(params_text(ps)) == ps,
    decreases ps.len(),
{
    if ps.len() == 0 {
        assert(trim_spaces(seq![]) =~= seq![]);
    } else if ps.len() == 1 {
        let x = seq![':'] + ps[0];
        assert(seq![' ', ':'] + ps[0] =~= seq![' '] + x);
        lemma_trim_one_space(x);
        assert(x.drop_first() =~= ps[0]);
        assert(seq![ps[0]] =~= ps);
    } else {
        let head = ps[0];
        let t = ps.drop_first();
        assert(params_well_formed(t)) by {
            assert forall|i: int| 0 <= i < t.len() implies is_line_text(#[trigger] t[i]) by {
                assert(t[i] == ps[i + 1]);
            }
            assert forall|i: int| 0 <= i < t.len() - 1 implies {
                let p = #[trigger] t[i];
                p.len() > 0 && is_token(p) && p[0] != ':'
            } by {
                assert(t[i] == ps[i + 1]);
            }
        }
        lemma_params_round_trip(t);
        let rest = params_text(t);
        assert(head.len() > 0 && is_token(head) && head[0] != ':');
        assert(rest.len() > 0 && rest[0] == ' ');
        let x = head + rest;
        assert(seq![' '] + head + rest =~= seq![' '] + x);
        lemma_trim_one_space(x);
        assert(rest =~= seq![' '] + rest.drop_first());
        lemma_token_then_space(head, rest.drop_first());
        assert(x =~= head + (seq![' '] + rest.drop_first()));
        assert(seq![head] + t =~= ps);
    }
}

/// Formatting a well-formed message and parsing the line gives the same
/// message back: the same tags, prefix, command and parameters. Tag values
/// come back exactly, an empty one included.
pub proof fn lemma_round_trip(m: MessageModel)
    requires
        well_formed(m),
    ensures
        parse_line(format_line(m)) == Ok::<MessageModel, ParseError>(m),
{
    let tp = tag_part(m.tags);
    let pp = prefix_part(m.prefix);
    let c = m.command;
    let r = params_text(m.params);
    let line = format_line(m);
    assert(line == tp + pp + c + r);
    // No line terminator at the end.
    assert(forall|i: int| 0 <= i < m.params.len() ==> lacks(#[trigger] m.params[i], '\r'));
    assert(forall|i: int| 0 <= i < m.params.len() ==> lacks(#[trigger] m.params[i], '\n'));
    lemma_params_text_line(m.params, '\r');
    lemma_params_text_line(m.params, '\n');
    if r.len() > 0 {
        assert(line.last() == r.last());
    } else {
        assert(line.last() == c.last());
    }
    assert(strip_line_end(line) == line);
    // What follows the tag block: the prefix, the command and the parameters.
    let x = pp + c + r;
    assert(x.len() > 0 && x[0] != ' ' && x[0] != '@') by {
        if pp.len() > 0 {
            assert(x[0] == pp[0]);
        } else {
            assert(x[0] == c[0]);
        }
    }
    if m.tags.len() > 0 {
        let tt = tags_text(m.tags);
        lemma_tags_text_no_space(m.tags);
        assert(line.drop_first() =~= tt + (seq![' '] + x));
        lemma_token_then_space(tt, x);
        lemma_trim_one_space(x);
        lemma_tags_round_trip(m.tags);
        assert(line[0] == '@');
        assert(parse_line(line) == parse_after_tags(m.tags, x));
    } else {
        assert(line =~= x);
        assert(m.tags =~= seq![]);
        assert(parse_line(line) == parse_after_tags(m.tags, x));
    }
    // What follows the prefix: the command and the parameters.
    let y = c + r;
    assert(y.len() > 0 && y[0] != ' ' && y[0] != ':' && y[0] == c[0]);
    if m.prefix is Some {
        let p = m.prefix->0;
        assert(x.drop_first() =~= p + (seq![' '] + y));
        lemma_token_then_space(p, y);
        lemma_trim_one_space(y);
        assert(x[0] == ':');
    } else {
        assert(x =~= y);
    }
    assert(parse_after_tags(m.tags, x) == parse_command(
        m.tags,
        m.prefix,
        y,
    ));
    // The command and the parameters.
    lemma_find_concat(c, r, ' ');
    assert(find(r, ' ') == 0);
    assert(y.take(c.len() as int) =~= c);
    assert(y.skip(c.len() as int) =~= r);
    lemma_params_round_trip(m.params);
    assert(parse_command(m.tags, m.prefix, y) == Ok::<
        MessageModel,
        ParseError,
    >(m));
}

} // verus!
