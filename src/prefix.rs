//! The source prefix taken apart: `nick['!' user]['@' host]`.
use vstd::prelude::*;

use crate::message::{option_view, ParseError};
use crate::text::{chars_of, collect, find, find_char, push_char, push_str};

verus! {

/// The value of a decomposed prefix.
pub struct PrefixModel {
    pub nick: Seq<char>,
    pub user: Option<Seq<char>>,
    pub host: Option<Seq<char>>,
}

/// `Some(s)`, or `None` when `s` is empty.
pub open spec fn non_empty(s: Seq<char>) -> Option<Seq<char>> {
    if s.len() == 0 {
        None
    } else {
        Some(s)
    }
}

/// The prefix `s` taken apart at its first `!` and at the first `@` after it.
/// Without `!` the whole of `s` is the nick. An empty user or host counts as
/// absent, and an empty nick is an error.
pub open spec fn parse_prefix(s: Seq<char>) -> Result<PrefixModel, ParseError> {
    let b = find(s, '!');
    if b == 0 {
        Err(ParseError::PrefixError)
    } else if b == s.len() {
        Ok(PrefixModel { nick: s, user: None, host: None })
    } else {
        let rest = s.skip(b + 1);
        let a = find(rest, '@');
        Ok(
            PrefixModel {
                nick: s.take(b),
                user: non_empty(rest.take(a)),
                host: if a < rest.len() {
                    non_empty(rest.skip(a + 1))
                } else {
                    None
                },
            },
        )
    }
}

/// The prefix written out: the nick, then `!` and the user, then `@` and the
/// host, each part only when present.
pub open spec fn format_prefix(p: PrefixModel) -> Seq<char> {
    p.nick + match p.user {
        Some(u) => seq!['!'] + u,
        None => seq![],
    } + match p.host {
        Some(h) => seq!['@'] + h,
        None => seq![],
    }
}

/// A message source taken apart.
#[derive(Debug, Clone, PartialEq, Eq)]
pub struct Prefix {
    pub nick: String,
    pub user: Option<String>,
    pub host: Option<String>,
}

impl View for Prefix {
    type V = PrefixModel;

    open spec fn view(&self) -> PrefixModel {
        PrefixModel { nick: self.nick@, user: option_view(self.user), host: option_view(self.host) }
    }
}

/// `v[from..to]` as a string, or `None` when it is empty.
fn non_empty_range(v: &Vec<char>, from: usize, to: usize) -> (r: Option<String>)
    requires
        from <= to <= v.len(),
    ensures
        option_view(r) == non_empty(v@.subrange(from as int, to as int)),
{
    if from == to {
        None
    } else {
        Some(collect(v, from, to))
    }
}

impl Prefix {
    /// Takes the prefix `s` apart.
    pub fn parse(s: &str) -> (r: Result<Prefix, ParseError>)
        ensures
            r matches Ok(p) ==> parse_prefix(s@) == Ok::<PrefixModel, ParseError>(p@),
            r matches Err(e) ==> parse_prefix(s@) == Err::<PrefixModel, ParseError>(e),
    {
        let v_owned = chars_of(s);
        let v = &v_owned;
        let n = v.len();
        assert(v@.subrange(0, n as int) =~= s@);
        let b = find_char(v, 0, n, '!');
        if b == 0 {
            return Err(ParseError::PrefixError);
        }
        if b == n {
            return Ok(Prefix { nick: collect(v, 0, n), user: None, host: None });
        }
        let a = find_char(v, b + 1, n, '@');
        let nick = collect(v, 0, b);
        let user = non_empty_range(v, b + 1, a);
        let host = if a < n {
            non_empty_range(v, a + 1, n)
        } else {
            None
        };
        let ghost rest = s@.skip(b + 1);
        assert(rest =~= v@.subrange(b + 1, n as int));
        assert(s@.take(b as int) =~= nick@);
        assert(rest.take(a - b - 1) =~= v@.subrange(b + 1, a as int));
        if a < n {
            assert(rest.skip(a - b) =~= v@.subrange(a + 1, n as int));
        }
        Ok(Prefix { nick, user, host })
    }

    /// The prefix written out.
    pub fn format(&self) -> (r: String)
        ensures
            r@ == format_prefix(self@),
    {
        let mut out = String::new();
        push_str(&mut out, &self.nick);
        match &self.user {
            Some(u) => {
                push_char(&mut out, '!');
                push_str(&mut out, u);
            },
            None => {},
        }
        match &self.host {
            Some(h) => {
                push_char(&mut out, '@');
                push_str(&mut out, h);
            },
            None => {},
        }
        assert(out@ =~= format_prefix(self@));
        out
    }
}

impl std::str::FromStr for Prefix {
    type Err = ParseError;

    fn from_str(s: &str) -> (r: Result<Prefix, ParseError>)
        ensures
            r matches Ok(p) ==> parse_prefix(s@) == Ok::<PrefixModel, ParseError>(p@),
            r matches Err(e) ==> parse_prefix(s@) == Err::<PrefixModel, ParseError>(e),
    {
        Prefix::parse(s)
    }
}

} // verus!
