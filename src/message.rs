//! A protocol line and its structured form: tags, source prefix, command and
//! parameters.
use vstd::prelude::*;

use crate::escape::{escape, escape_char, unescape, unescape_char};
use crate::tags::{distinct_keys, insert_all, lemma_insertion_order_irrelevant, sorted_insert, Tags};
use crate::text::{
    chars_of, collect, find, find_char, lemma_find_bounds, lemma_trim_spaces, push_char,
    push_str, skip_spaces, trim_spaces,
};

verus! {

/// Why a line is not a message.
#[derive(Debug, Clone, Copy, PartialEq, Eq, Structural)]
pub enum ParseError {
    /// The line starts a tag block with `@` and no space ends it.
    TagBlockError,
    /// The line has a `:` prefix and no space ends it.
    PrefixError,
    /// Nothing is left for the command after the tags and the prefix, or the
    /// command token is empty.
    CommandError,
}

/// The value of a message: tag entries in ascending key order, the raw
/// prefix, the command and the parameters.
pub struct MessageModel {
    pub tags: Seq<(Seq<char>, Seq<char>)>,
    pub prefix: Option<Seq<char>>,
    pub command: Seq<char>,
    pub params: Seq<Seq<char>>,
}

/// The character sequences of a list of strings.
pub open spec fn string_views(v: Seq<String>) -> Seq<Seq<char>> {
    v.map_values(|s: String| s@)
}

/// The character sequence of an optional string.
pub open spec fn option_view(o: Option<String>) -> Option<Seq<char>> {
    match o {
        Some(s) => Some(s@),
        None => None,
    }
}

/// One message of the protocol.
#[derive(Debug, Clone, PartialEq, Eq)]
pub struct Message {
    pub tags: Tags,
    pub prefix: Option<String>,
    pub command: String,
    pub params: Vec<String>,
}

impl View for Message {
    type V = MessageModel;

    open spec fn view(&self) -> MessageModel {
        MessageModel {
            tags: self.tags@,
            prefix: option_view(self.prefix),
            command: self.command@,
            params: string_views(self.params@),
        }
    }
}

// ---------------------------------------------------------------------------
// The line grammar.
/// `s` without one final line feed, then without one final carriage return.
pub open spec fn strip_line_end(s: Seq<char>) -> Seq<char> {
    let a = if s.len() > 0 && s.last() == '\n' {
        s.drop_last()
    } else {
        s
    };
    if a.len() > 0 && a.last() == '\r' {
        a.drop_last()
    } else {
        a
    }
}

/// `acc` with the tag of one component `name=value` of a tag block. Without
/// `=` the value is empty; a component with an empty name adds nothing.
pub open spec fn add_component(acc: Seq<(Seq<char>, Seq<char>)>, c: Seq<char>) -> Seq<
    (Seq<char>, Seq<char>),
> {
    let e = find(c, '=');
    let raw = if e < c.len() {
        c.skip(e + 1)
    } else {
        seq![]
    };
    if e == 0 {
        acc
    } else {
        sorted_insert(acc, c.take(e), unescape(raw))
    }
}

/// `acc` with the tags of the `;`-separated components of `block`, added from
/// left to right, so that a later component wins over an earlier one.
pub open spec fn tags_from(acc: Seq<(Seq<char>, Seq<char>)>, block: Seq<char>) -> Seq<
    (Seq<char>, Seq<char>),
>
    decreases block.len(),
{
    let e = find(block, ';');
    let next = add_component(acc, block.take(e));
    if e >= block.len() {
        next
    } else {
        proof {
            lemma_find_bounds(block, ';');
        }
        tags_from(next, block.skip(e + 1))
    }
}

/// The parameters in `s`: tokens between runs of spaces, up to a token that
/// starts with `:`, which takes the rest of `s` without its `:`.
pub open spec fn params_of(s: Seq<char>) -> Seq<Seq<char>>
    decreases s.len(),
{
    let t = trim_spaces(s);
    if t.len() == 0 {
        seq![]
    } else if t[0] == ':' {
        seq![t.drop_first()]
    } else {
        proof {
            lemma_trim_spaces(s);
            lemma_find_bounds(t, ' ');
        }
        let e = find(t, ' ');
        seq![t.take(e)] + params_of(t.skip(e))
    }
}

/// The message whose command token starts `s`.
pub open spec fn parse_command(
    tags: Seq<(Seq<char>, Seq<char>)>,
    prefix: Option<Seq<char>>,
    s: Seq<char>,
) -> Result<MessageModel, ParseError> {
    let e = find(s, ' ');
    if e == 0 {
        Err(ParseError::CommandError)
    } else {
        Ok(MessageModel { tags, prefix, command: s.take(e), params: params_of(s.skip(e)) })
    }
}

/// The message in `s`, which follows the tag block.
pub open spec fn parse_after_tags(tags: Seq<(Seq<char>, Seq<char>)>, s: Seq<char>) -> Result<
    MessageModel,
    ParseError,
> {
    if s.len() > 0 && s[0] == ':' {
        let body = s.drop_first();
        let e = find(body, ' ');
        if e == body.len() {
            Err(ParseError::PrefixError)
        } else {
            parse_command(tags, Some(body.take(e)), trim_spaces(body.skip(e)))
        }
    } else {
        parse_command(tags, None, s)
    }
}

/// The message in `line`, or why there is none.
pub open spec fn parse_line(line: Seq<char>) -> Result<MessageModel, ParseError> {
    let s = strip_line_end(line);
    if s.len() > 0 && s[0] == '@' {
        let body = s.drop_first();
        let e = find(body, ' ');
        if e == body.len() {
            Err(ParseError::TagBlockError)
        } else {
            parse_after_tags(tags_from(seq![], body.take(e)), trim_spaces(body.skip(e)))
        }
    } else {
        parse_after_tags(seq![], s)
    }
}

// ---------------------------------------------------------------------------
// The canonical form.
/// One tag as written: `name=value` with the value escaped, or `name` alone
/// when the value is empty.
pub open spec fn entry_text(e: (Seq<char>, Seq<char>)) -> Seq<char> {
    if e.1.len() == 0 {
        e.0
    } else {
        e.0 + seq!['='] + escape(e.1)
    }
}

/// The tags joined by `;`.
pub open spec fn tags_text(es: Seq<(Seq<char>, Seq<char>)>) -> Seq<char>
    decreases es.len(),
{
    if es.len() == 0 {
        seq![]
    } else if es.len() == 1 {
        entry_text(es[0])
    } else {
        tags_text(es.drop_last()) + seq![';'] + entry_text(es.last())
    }
}

/// The tag block with its `@` and the space after it, or nothing without tags.
pub open spec fn tag_part(es: Seq<(Seq<char>, Seq<char>)>) -> Seq<char> {
    if es.len() == 0 {
        seq![]
    } else {
        seq!['@'] + tags_text(es) + seq![' ']
    }
}

/// The prefix with its `:` and the space after it, or nothing without one.
pub open spec fn prefix_part(p: Option<Seq<char>>) -> Seq<char> {
    match p {
        Some(p) => seq![':'] + p + seq![' '],
        None => seq![],
    }
}

/// Each parameter after a space; the last one always after ` :`.
pub open spec fn params_text(ps: Seq<Seq<char>>) -> Seq<char>
    decreases ps.len(),
{
    if ps.len() == 0 {
        seq![]
    } else if ps.len() == 1 {
        seq![' ', ':'] + ps[0]
    } else {
        seq![' '] + ps[0] + params_text(ps.drop_first())
    }
}

/// The line of a message, without a line terminator.
pub open spec fn format_line(m: MessageModel) -> Seq<char> {
    tag_part(m.tags) + prefix_part(m.prefix) + m.command + params_text(m.params)
}

// ---------------------------------------------------------------------------
// Parsing.
/// The tag value `v[from..to]` with its escapes resolved.
fn unescape_range(v: &Vec<char>, from: usize, to: usize) -> (r: String)
    requires
        from <= to <= v.len(),
    ensures
        r@ == unescape(v@.subrange(from as int, to as int)),
{
    let mut out = String::new();
    let mut i = from;
    while i < to
        invariant
            from <= i <= to <= v.len(),
            unescape(v@.subrange(from as int, to as int)) == out@ + unescape(
                v@.subrange(i as int, to as int),
            ),
        decreases to - i,
    {
        let ghost rest = v@.subrange(i as int, to as int);
        let ghost before = out@;
        if v[i] == '\\' {
            if i + 1 < to {
                push_char(&mut out, unescape_char(v[i + 1]));
                assert(rest.skip(2) =~= v@.subrange(i + 2, to as int));
                assert(before + unescape(rest) =~= out@ + unescape(v@.subrange(i + 2, to as int)));
                i += 2;
            } else {
                i += 1;
                assert(unescape(v@.subrange(i as int, to as int)) =~= seq![]);
                assert(before + unescape(rest) =~= out@);
            }
        } else {
            push_char(&mut out, v[i]);
            assert(rest.drop_first() =~= v@.subrange(i + 1, to as int));
            assert(before + unescape(rest) =~= out@ + unescape(v@.subrange(i + 1, to as int)));
            i += 1;
        }
    }
    assert(unescape(v@.subrange(to as int, to as int)) =~= seq![]);
    assert(out@ + seq![] =~= out@);
    out
}

/// Adds the tag of the component `v[from..to]` of a tag block.
fn add_tag(tags: &mut Tags, v: &Vec<char>, from: usize, to: usize)
    requires
        from <= to <= v.len(),
        old(tags).wf(),
    ensures
        final(tags).wf(),
        final(tags)@ == add_component(old(tags)@, v@.subrange(from as int, to as int)),
{
    let ghost c = v@.subrange(from as int, to as int);
    let q = find_char(v, from, to, '=');
    if q == from {
        return;
    }
    let name = collect(v, from, q);
    let value = if q < to {
        unescape_range(v, q + 1, to)
    } else {
        String::new()
    };
    assert(c.take(q - from) =~= name@);
    if q < to {
        assert(c.skip(q - from + 1) =~= v@.subrange(q + 1, to as int));
    } else {
        assert(unescape(seq![]) =~= seq![]);
    }
    tags.insert(name, value);
}

/// The tags of the tag block `v[from..to]`.
fn parse_tags(v: &Vec<char>, from: usize, to: usize) -> (r: Tags)
    requires
        from <= to <= v.len(),
    ensures
        r.wf(),
        r@ == tags_from(seq![], v@.subrange(from as int, to as int)),
{
    let mut tags = Tags::new();
    let mut i = from;
    loop
        invariant
            from <= i <= to <= v.len(),
            tags.wf(),
            tags_from(seq![], v@.subrange(from as int, to as int)) == tags_from(
                tags@,
                v@.subrange(i as int, to as int),
            ),
        decreases to - i,
    {
        let ghost block = v@.subrange(i as int, to as int);
        let e = find_char(v, i, to, ';');
        assert(block.take(e - i) =~= v@.subrange(i as int, e as int));
        add_tag(&mut tags, v, i, e);
        if e == to {
            return tags;
        }
        assert(block.skip(e - i + 1) =~= v@.subrange(e + 1, to as int));
        i = e + 1;
    }
}

/// The parameters in `v[from..to]`.
fn parse_params(v: &Vec<char>, from: usize, to: usize) -> (r: Vec<String>)
    requires
        from <= to <= v.len(),
    ensures
        string_views(r@) == params_of(v@.subrange(from as int, to as int)),
{
    let mut ps: Vec<String> = Vec::new();
    let mut i = from;
    loop
        invariant
            from <= i <= to <= v.len(),
            params_of(v@.subrange(from as int, to as int)) == string_views(ps@) + params_of(
                v@.subrange(i as int, to as int),
            ),
        decreases to - i,
    {
        let ghost s = v@.subrange(i as int, to as int);
        let ghost before = string_views(ps@);
        let k = skip_spaces(v, i, to);
        let ghost t = v@.subrange(k as int, to as int);
        if k == to {
            assert(params_of(s) =~= seq![]);
            assert(before + seq![] =~= before);
            return ps;
        }
        if v[k] == ':' {
            ps.push(collect(v, k + 1, to));
            assert(t.drop_first() =~= v@.subrange(k + 1, to as int));
            assert(string_views(ps@) =~= before + params_of(s));
            return ps;
        }
        let e = find_char(v, k, to, ' ');
        proof {
            lemma_find_bounds(t, ' ');
        }
        ps.push(collect(v, k, e));
        assert(t.take(e - k) =~= v@.subrange(k as int, e as int));
        assert(t.skip(e - k) =~= v@.subrange(e as int, to as int));
        assert(string_views(ps@) =~= before + seq![v@.subrange(k as int, e as int)]);
        assert(before + params_of(s) =~= string_views(ps@) + params_of(
            v@.subrange(e as int, to as int),
        ));
        i = e;
    }
}

/// The value of a parse result.
pub open spec fn result_view(r: Result<Message, ParseError>) -> Result<MessageModel, ParseError> {
    match r {
        Ok(m) => Ok(m@),
        Err(e) => Err(e),
    }
}

/// The message whose command token starts `v[pos..end]`.
fn parse_command_at(
    v: &Vec<char>,
    pos: usize,
    end: usize,
    tags: Tags,
    prefix: Option<String>,
) -> (r: Result<Message, ParseError>)
    requires
        pos <= end <= v.len(),
    ensures
        result_view(r) == parse_command(tags@, option_view(prefix), v@.subrange(pos as int, end as int)),
        r matches Ok(m) ==> m.tags == tags,
{
    let ghost rest = v@.subrange(pos as int, end as int);
    let ce = find_char(v, pos, end, ' ');
    if ce == pos {
        return Err(ParseError::CommandError);
    }
    let command = collect(v, pos, ce);
    let params = parse_params(v, ce, end);
    assert(rest.take(ce - pos) =~= command@);
    assert(rest.skip(ce - pos) =~= v@.subrange(ce as int, end as int));
    Ok(Message { tags, prefix, command, params })
}

/// The message in `v[pos..end]`, which follows the tag block.
fn parse_after_tags_at(v: &Vec<char>, pos: usize, end: usize, tags: Tags) -> (r: Result<
    Message,
    ParseError,
>)
    requires
        pos <= end <= v.len(),
    ensures
        result_view(r) == parse_after_tags(tags@, v@.subrange(pos as int, end as int)),
        r matches Ok(m) ==> m.tags == tags,
{
    let ghost s = v@.subrange(pos as int, end as int);
    if pos < end && v[pos] == ':' {
        let e = find_char(v, pos + 1, end, ' ');
        assert(s.drop_first() =~= v@.subrange(pos + 1, end as int));
        if e == end {
            return Err(ParseError::PrefixError);
        }
        let prefix = collect(v, pos + 1, e);
        assert(s.drop_first().take(e - pos - 1) =~= prefix@);
        assert(s.drop_first().skip(e - pos - 1) =~= v@.subrange(e as int, end as int));
        let next = skip_spaces(v, e, end);
        parse_command_at(v, next, end, tags, Some(prefix))
    } else {
        parse_command_at(v, pos, end, tags, None)
    }
}

impl Message {
    /// Parses one line. A final line feed, then a final carriage return, is
    /// dropped first.
    pub fn parse(line: &str) -> (r: Result<Message, ParseError>)
        ensures
            result_view(r) == parse_line(line@),
            r matches Ok(m) ==> m.tags.wf(),
    {
        let v_owned = chars_of(line);
        let v = &v_owned;
        let mut end = v.len();
        if end > 0 && v[end - 1] == '\n' {
            end -= 1;
        }
        if end > 0 && v[end - 1] == '\r' {
            end -= 1;
        }
        let ghost s = v@.subrange(0, end as int);
        assert(s =~= strip_line_end(line@));
        if end > 0 && v[0] == '@' {
            let e = find_char(v, 1, end, ' ');
            assert(s.drop_first() =~= v@.subrange(1, end as int));
            if e == end {
                return Err(ParseError::TagBlockError);
            }
            let tags = parse_tags(v, 1, e);
            let pos = skip_spaces(v, e, end);
            assert(s.drop_first().take(e - 1) =~= v@.subrange(1, e as int));
            assert(s.drop_first().skip(e - 1) =~= v@.subrange(e as int, end as int));
            parse_after_tags_at(v, pos, end, tags)
        } else {
            let tags = Tags::new();
            assert(tags@ =~= seq![]);
            parse_after_tags_at(v, 0, end, tags)
        }
    }
}

// ---------------------------------------------------------------------------
// Formatting.
/// Appends `value` with its reserved characters escaped.
fn push_escaped(out: &mut String, value: &String)
    ensures
        final(out)@ == old(out)@ + escape(value@),
{
    let v = chars_of(value.as_str());
    let ghost target = out@ + escape(value@);
    let mut i: usize = 0;
    assert(v@.skip(0) =~= v@);
    while i < v.len()
        invariant
            i <= v.len(),
            v@ == value@,
            target == out@ + escape(v@.skip(i as int)),
        decreases v.len() - i,
    {
        let ghost before = out@;
        let c = v[i];
        match escape_char(c) {
            Some(l) => {
                push_char(out, '\\');
                push_char(out, l);
            },
            None => {
                push_char(out, c);
            },
        }
        assert(v@.skip(i as int).drop_first() =~= v@.skip(i + 1));
        assert(before + escape(v@.skip(i as int)) =~= out@ + escape(v@.skip(i + 1)));
        i += 1;
    }
    assert(escape(v@.skip(i as int)) =~= seq![]);
    assert(out@ + seq![] =~= out@);
}

/// Appends the tag block of `tags`, or nothing when there are no tags.
fn push_tags(out: &mut String, tags: &Tags)
    ensures
        final(out)@ == old(out)@ + tag_part(tags@),
{
    let n = tags.len();
    if n == 0 {
        assert(old(out)@ + tag_part(tags@) =~= out@);
        return;
    }
    let ghost start = out@;
    let ghost es = tags@;
    push_char(out, '@');
    let mut i: usize = 0;
    while i < n
        invariant
            n == es.len(),
            es == tags@,
            i <= n,
            out@ == start + seq!['@'] + tags_text(es.take(i as int)),
        decreases n - i,
    {
        let ghost before = out@;
        let (k, val) = tags.entry(i);
        if i > 0 {
            push_char(out, ';');
        }
        push_str(out, k);
        if !val.as_str().is_empty() {
            push_char(out, '=');
            push_escaped(out, val);
        }
        proof {
            let t = es.take(i + 1);
            assert(t.last() == es[i as int]);
            if i > 0 {
                assert(t.drop_last() =~= es.take(i as int));
            } else {
                assert(es.take(0) =~= seq![]);
            }
            assert(out@ =~= start + seq!['@'] + tags_text(t));
        }
        i += 1;
    }
    push_char(out, ' ');
    assert(es.take(n as int) =~= es);
    assert(out@ =~= start + tag_part(es));
}

/// Appends the parameters, the last one after ` :`.
fn push_params(out: &mut String, params: &Vec<String>)
    ensures
        final(out)@ == old(out)@ + params_text(string_views(params@)),
{
    let ghost ps = string_views(params@);
    let ghost target = out@ + params_text(ps);
    let m = params.len();
    let mut i: usize = 0;
    assert(ps.skip(0) =~= ps);
    while i < m
        invariant
            m == params@.len(),
            ps == string_views(params@),
            i <= m,
            target == out@ + params_text(ps.skip(i as int)),
        decreases m - i,
    {
        let ghost before = out@;
        let ghost rest = ps.skip(i as int);
        push_char(out, ' ');
        if i + 1 == m {
            push_char(out, ':');
        }
        push_str(out, &params[i]);
        assert(rest[0] == params@[i as int]@);
        assert(rest.drop_first() =~= ps.skip(i + 1));
        if i + 1 == m {
            assert(ps.skip(i + 1) =~= seq![]);
        }
        assert(before + params_text(rest) =~= out@ + params_text(ps.skip(i + 1)));
        i += 1;
    }
    assert(params_text(ps.skip(m as int)) =~= seq![]);
    assert(out@ + seq![] =~= out@);
}

impl Message {
    /// The line of this message in canonical form, without a line terminator.
    /// Tags come in ascending key order, a tag with an empty value is written
    /// without `=`, and the last parameter always follows ` :`.
    pub fn format(&self) -> (r: String)
        ensures
            r@ == format_line(self@),
    {
        let mut out = String::new();
        push_tags(&mut out, &self.tags);
        match &self.prefix {
            Some(p) => {
                push_char(&mut out, ':');
                push_str(&mut out, p);
                push_char(&mut out, ' ');
            },
            None => {},
        }
        push_str(&mut out, &self.command);
        push_params(&mut out, &self.params);
        assert(out@ =~= format_line(self@));
        out
    }
}

/// Two messages that differ only in the order in which the same tag pairs,
/// under distinct keys, were inserted format to the same line.
pub proof fn lemma_format_tag_order(
    ps: Seq<(Seq<char>, Seq<char>)>,
    qs: Seq<(Seq<char>, Seq<char>)>,
    prefix: Option<Seq<char>>,
    command: Seq<char>,
    params: Seq<Seq<char>>,
)
    requires
        distinct_keys(ps),
        distinct_keys(qs),
        forall|x: (Seq<char>, Seq<char>)| ps.contains(x) <==> qs.contains(x),
    ensures
        format_line((MessageModel { tags: insert_all(seq![], ps), prefix, command, params }))
            == format_line((MessageModel { tags: insert_all(seq![], qs), prefix, command, params })),
{
    lemma_insertion_order_irrelevant(ps, qs);
}

impl Message {
    /// A message with a command and parameters, without tags or prefix.
    pub fn new(command: String, params: Vec<String>) -> (r: Message)
        ensures
            r.tags.wf(),
            r@ == (MessageModel {
                tags: seq![],
                prefix: None,
                command: command@,
                params: string_views(params@),
            }),
    {
        Message { tags: Tags::new(), prefix: None, command, params }
    }

    /// A message with every field given.
    pub fn new_with_all(
        tags: Tags,
        prefix: Option<String>,
        command: String,
        params: Vec<String>,
    ) -> (r: Message)
        ensures
            r.tags == tags,
            r.prefix == prefix,
            r.command == command,
            r.params == params,
    {
        Message { tags, prefix, command, params }
    }

    /// A message with a prefix, a command and parameters, without tags.
    pub fn new_with_prefix(command: String, params: Vec<String>, prefix: String) -> (r: Message)
        ensures
            r.tags.wf(),
            r@ == (MessageModel {
                tags: seq![],
                prefix: Some(prefix@),
                command: command@,
                params: string_views(params@),
            }),
    {
        Message { tags: Tags::new(), prefix: Some(prefix), command, params }
    }
}

impl std::str::FromStr for Message {
    type Err = ParseError;

    fn from_str(s: &str) -> (r: Result<Message, ParseError>)
        ensures
            result_view(r) == parse_line(s@),
            r matches Ok(m) ==> m.tags.wf(),
    {
        Message::parse(s)
    }
}

} // verus!
