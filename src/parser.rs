//! Tokenizing one IRC protocol line into a `Message`.
use vstd::prelude::*;

verus! {

/// The largest number of parameters a message may carry.
pub const MAX_PARAMS: usize = 15;

/// The ways a line can fail to parse.
#[derive(Debug, Clone, Copy, PartialEq, Eq)]
pub enum ParseError {
    /// Nothing but whitespace (or nothing at all) was left after the line ending was removed.
    EmptyInput,
    /// No command token follows the optional prefix.
    MissingCommand,
    /// The command starts with a run of digits whose length is not three.
    InvalidNumericCommand,
    /// More than `MAX_PARAMS` parameters were given.
    TooManyParams,
}

/// Characters that count as blank when deciding whether a line is empty: the
/// ASCII whitespace of `char::is_ascii_whitespace` (space, tab, line feed,
/// form feed, carriage return). Vertical tab and non-ASCII spaces are not blank.
pub open spec fn is_blank(c: char) -> bool {
    c == ' ' || c == '\t' || c == '\n' || c == '\r' || c == '\x0C'
}

pub open spec fn is_digit(c: char) -> bool {
    '0' <= c && c <= '9'
}

/// The line with every trailing `"\r\n"` pair removed.
pub open spec fn strip_crlf(s: Seq<char>) -> Seq<char>
    decreases s.len(),
{
    if s.len() >= 2 && s[s.len() - 2] == '\r' && s[s.len() - 1] == '\n' {
        strip_crlf(s.subrange(0, s.len() - 2))
    } else {
        s
    }
}

/// The first index at or after `i` that holds `c`, or `s.len()` if there is none.
pub open spec fn find_from(s: Seq<char>, c: char, i: nat) -> nat
    decreases s.len() - i,
{
    if i < s.len() && s[i as int] != c {
        find_from(s, c, i + 1)
    } else {
        i
    }
}

/// The end of the run of decimal digits that starts at `i`.
pub open spec fn digits_end(s: Seq<char>, i: nat) -> nat
    decreases s.len() - i,
{
    if i < s.len() && is_digit(s[i as int]) {
        digits_end(s, i + 1)
    } else {
        i
    }
}

/// The first index at or after `i` that does not hold a space, or `s.len()`.
pub open spec fn skip_spaces(s: Seq<char>, i: nat) -> nat
    decreases s.len() - i,
{
    if i < s.len() && s[i as int] == ' ' {
        skip_spaces(s, i + 1)
    } else {
        i
    }
}

/// Running past a character search never moves backwards nor past the end.
pub proof fn lemma_find_from_bounds(s: Seq<char>, c: char, i: nat)
    requires
        i <= s.len(),
    ensures
        i <= find_from(s, c, i) <= s.len(),
        find_from(s, c, i) < s.len() ==> s[find_from(s, c, i) as int] == c,
        forall|k: int| i <= k < find_from(s, c, i) ==> s[k] != c,
    decreases s.len() - i,
{
    if i < s.len() && s[i as int] != c {
        lemma_find_from_bounds(s, c, i + 1);
    }
}

/// The index just past a separating space at `e`, if one stands there.
pub open spec fn skip_sep(s: Seq<char>, e: nat) -> nat {
    if e < s.len() && s[e as int] == ' ' {
        e + 1
    } else {
        e
    }
}

/// The parameters found from index `i` on: space-separated tokens, where a
/// token that starts with `:` takes the rest of the line.
pub open spec fn params_from(s: Seq<char>, i: nat) -> Seq<Seq<char>>
    decreases s.len() - i,
{
    if i >= s.len() {
        seq![]
    } else if s[i as int] == ':' {
        seq![s.subrange(i + 1 as int, s.len() as int)]
    } else {
        let e = find_from(s, ' ', i);
        proof {
            lemma_find_from_bounds(s, ' ', i);
        }
        seq![s.subrange(i as int, e as int)] + params_from(s, skip_sep(s, e))
    }
}

/// The command that starts at index `i`, with the index where the parameters begin.
pub open spec fn command_at(s: Seq<char>, i: nat) -> Result<(Seq<char>, nat), ParseError> {
    if i >= s.len() {
        Err(ParseError::MissingCommand)
    } else if is_digit(s[i as int]) {
        let e = digits_end(s, i);
        if e - i == 3 {
            Ok((s.subrange(i as int, e as int), skip_sep(s, e)))
        } else {
            Err(ParseError::InvalidNumericCommand)
        }
    } else {
        let e = find_from(s, ' ', i);
        if e == i {
            Err(ParseError::MissingCommand)
        } else {
            Ok((s.subrange(i as int, e as int), skip_sep(s, e)))
        }
    }
}

/// What a parsed line holds, as mathematical values.
pub struct MessageView {
    pub server: Option<Seq<char>>,
    pub nick: Option<Seq<char>>,
    pub user: Option<Seq<char>>,
    pub host: Option<Seq<char>>,
    pub command: Seq<char>,
    pub params: Seq<Seq<char>>,
}

/// The character `c` does not occur in `t`.
pub open spec fn lacks(t: Seq<char>, c: char) -> bool {
    forall|k: int| 0 <= k < t.len() ==> #[trigger] t[k] != c
}

/// No space occurs in `t`.
pub open spec fn spaceless(t: Seq<char>) -> bool {
    lacks(t, ' ')
}

impl MessageView {
    /// What holds of every successfully parsed line: at most one kind of
    /// origin, a user or host only beside a nick and a nick only with a host,
    /// no space in any origin part, no `@` in a server, nick or user and no
    /// `!` in a nick, a non-empty command without spaces, at most
    /// `MAX_PARAMS` parameters, and spaces only in the last parameter.
    pub open spec fn wf(self) -> bool {
        &&& self.server is Some ==> (self.nick is None && self.user is None && self.host is None)
        &&& self.server matches Some(x) ==> spaceless(x) && lacks(x, '@')
        &&& self.nick matches Some(x) ==> spaceless(x) && lacks(x, '@') && lacks(x, '!')
        &&& self.user matches Some(x) ==> spaceless(x) && lacks(x, '@')
        &&& self.host matches Some(x) ==> spaceless(x)
        &&& self.user is Some ==> self.nick is Some
        &&& self.nick is Some <==> self.host is Some
        &&& self.command.len() > 0
        &&& spaceless(self.command)
        &&& self.params.len() <= MAX_PARAMS
        &&& forall|j: int| 0 <= j < self.params.len() - 1 ==> spaceless(#[trigger] self.params[j])
    }
}

/// The origin named by a prefix token (the text between `:` and the first space).
/// Without `@` it is a server name; otherwise it splits at the first `@` into a
/// name and a host, and the name splits at its first `!` into nick and user.
pub open spec fn origin_of(p: Seq<char>) -> (
    Option<Seq<char>>,
    Option<Seq<char>>,
    Option<Seq<char>>,
    Option<Seq<char>>,
) {
    let a = find_from(p, '@', 0);
    if a == p.len() {
        (Some(p), None, None, None)
    } else {
        let name = p.subrange(0, a as int);
        let host = p.subrange(a + 1 as int, p.len() as int);
        let b = find_from(name, '!', 0);
        if b == name.len() {
            (None, Some(name), None, Some(host))
        } else {
            (
                None,
                Some(name.subrange(0, b as int)),
                Some(name.subrange(b + 1 as int, name.len() as int)),
                Some(host),
            )
        }
    }
}

/// The end of the prefix token of a line that starts with `:`.
pub open spec fn prefix_end(s: Seq<char>) -> nat {
    find_from(s, ' ', 1)
}

/// What parsing a whole line gives. After the prefix token every space up to
/// the command is skipped; after the command, and between parameters, one
/// space separates tokens, and a command of three digits may be followed
/// directly by the first parameter.
pub open spec fn parse_line(line: Seq<char>) -> Result<MessageView, ParseError> {
    let s = strip_crlf(line);
    if forall|k: int| 0 <= k < s.len() ==> is_blank(#[trigger] s[k]) {
        Err(ParseError::EmptyInput)
    } else {
        let has_prefix = s[0] == ':';
        let origin = if has_prefix {
            origin_of(s.subrange(1, prefix_end(s) as int))
        } else {
            (None, None, None, None)
        };
        let start: nat = if has_prefix { skip_spaces(s, prefix_end(s)) } else { 0 };
        match command_at(s, start) {
            Err(e) => Err(e),
            Ok((command, next)) => {
                let params = params_from(s, next);
                if params.len() > MAX_PARAMS {
                    Err(ParseError::TooManyParams)
                } else {
                    Ok(
                        MessageView {
                            server: origin.0,
                            nick: origin.1,
                            user: origin.2,
                            host: origin.3,
                            command,
                            params,
                        },
                    )
                }
            },
        }
    }
}


/// One parsed protocol line.
#[derive(Debug, Default)]
pub struct Message {
    pub server: Option<String>,
    pub nick: Option<String>,
    pub user: Option<String>,
    pub host: Option<String>,
    pub command: String,
    pub params: Vec<String>,
}

pub open spec fn opt_view(o: Option<String>) -> Option<Seq<char>> {
    match o {
        Some(x) => Some(x@),
        None => None,
    }
}

pub open spec fn strings_view(v: Seq<String>) -> Seq<Seq<char>> {
    v.map_values(|p: String| p@)
}

impl View for Message {
    type V = MessageView;

    open spec fn view(&self) -> MessageView {
        MessageView {
            server: opt_view(self.server),
            nick: opt_view(self.nick),
            user: opt_view(self.user),
            host: opt_view(self.host),
            command: self.command@,
            params: strings_view(self.params@),
        }
    }
}

/// The index of the first `c` at or after `i` in `s`, or the length of `s`.
fn find_char(s: &str, c: char, i: usize) -> (r: usize)
    requires
        i <= s@.len(),
    ensures
        r == find_from(s@, c, i as nat),
        i <= r <= s@.len(),
{
    proof {
        lemma_find_from_bounds(s@, c, i as nat);
    }
    let n = s.unicode_len();
    let mut j = i;
    while j < n && s.get_char(j) != c
        invariant
            i <= j <= n,
            n == s@.len(),
            find_from(s@, c, j as nat) == find_from(s@, c, i as nat),
        decreases n - j,
    {
        j = j + 1;
    }
    j
}

/// The end of the run of decimal digits that starts at `i` in `s`.
fn scan_digits(s: &str, i: usize) -> (r: usize)
    requires
        i <= s@.len(),
    ensures
        r == digits_end(s@, i as nat),
        i <= r <= s@.len(),
{
    let n = s.unicode_len();
    let mut j = i;
    while j < n && '0' <= s.get_char(j) && s.get_char(j) <= '9'
        invariant
            i <= j <= n,
            n == s@.len(),
            digits_end(s@, j as nat) == digits_end(s@, i as nat),
        decreases n - j,
    {
        j = j + 1;
    }
    j
}

/// The length of `line` once every trailing `"\r\n"` is removed.
fn stripped_len(line: &str) -> (r: usize)
    ensures
        r <= line@.len(),
        line@.subrange(0, r as int) == strip_crlf(line@),
{
    let mut n = line.unicode_len();
    assert(line@.subrange(0, n as int) =~= line@);
    while n >= 2 && line.get_char(n - 2) == '\r' && line.get_char(n - 1) == '\n'
        invariant
            n <= line@.len(),
            strip_crlf(line@.subrange(0, n as int)) == strip_crlf(line@),
        decreases n,
    {
        assert(line@.subrange(0, n as int).subrange(0, n - 2) =~= line@.subrange(0, n - 2));
        n = n - 2;
    }
    n
}

/// Whether every character of `s` is blank (true of the empty string).
fn all_blank(s: &str) -> (r: bool)
    ensures
        r == forall|k: int| 0 <= k < s@.len() ==> is_blank(#[trigger] s@[k]),
{
    let n = s.unicode_len();
    let mut j: usize = 0;
    while j < n
        invariant
            j <= n,
            n == s@.len(),
            forall|k: int| 0 <= k < j ==> is_blank(#[trigger] s@[k]),
        decreases n - j,
    {
        let c = s.get_char(j);
        if !(c == ' ' || c == '\t' || c == '\n' || c == '\r' || c == '\x0C') {
            return false;
        }
        j = j + 1;
    }
    true
}


/// Splits a prefix token into server, nick, user and host.
fn split_origin(p: &str) -> (r: (Option<String>, Option<String>, Option<String>, Option<String>))
    ensures
        (opt_view(r.0), opt_view(r.1), opt_view(r.2), opt_view(r.3)) == origin_of(p@),
{
    let len = p.unicode_len();
    let a = find_char(p, '@', 0);
    if a == len {
        return (Some(p.to_owned()), None, None, None);
    }
    let name = p.substring_char(0, a);
    let host = p.substring_char(a + 1, len).to_owned();
    let b = find_char(name, '!', 0);
    if b == a {
        (None, Some(name.to_owned()), None, Some(host))
    } else {
        let nick = name.substring_char(0, b).to_owned();
        let user = name.substring_char(b + 1, a).to_owned();
        (None, Some(nick), Some(user), Some(host))
    }
}

/// A parser of protocol lines. It keeps no state between calls.
pub struct Parser;

impl Parser {
    pub fn new() -> Parser {
        Parser
    }

    /// Parses one protocol line, after removing any trailing `"\r\n"`.
    /// The result is `parse_line` of the line's text and of nothing else, so
    /// parsing the same text again gives an equal message.
    pub fn parse(&self, line: &str) -> (r: Result<Message, ParseError>)
        ensures
            match r {
                Ok(m) => parse_line(line@) == Ok::<MessageView, ParseError>(m@),
                Err(e) => parse_line(line@) == Err::<MessageView, ParseError>(e),
            },
    {
        let n = stripped_len(line);
        let s = line.substring_char(0, n);
        if all_blank(s) {
            return Err(ParseError::EmptyInput);
        }
        let mut origin: (Option<String>, Option<String>, Option<String>, Option<String>) = (
            None,
            None,
            None,
            None,
        );
        let mut start: usize = 0;
        if s.get_char(0) == ':' {
            let (prefix, next) = self.parse_prefix(s);
            origin = split_origin(prefix.as_str());
            start = next;
        }
        let (command, next) = match self.parse_command(s, start) {
            Ok(c) => c,
            Err(e) => return Err(e),
        };
        let params = match self.parse_params(s, next) {
            Ok(p) => p,
            Err(e) => return Err(e),
        };
        let (server, nick, user, host) = origin;
        Ok(Message { server, nick, user, host, command, params })
    }

    /// Reads the prefix token of `s`, which starts with `:`; returns it with
    /// the index where the command begins.
    fn parse_prefix(&self, s: &str) -> (r: (String, usize))
        requires
            s@.len() > 0,
            s@[0] == ':',
        ensures
            r.0@ == s@.subrange(1, prefix_end(s@) as int),
            r.1 == skip_spaces(s@, prefix_end(s@)),
            r.1 <= s@.len(),
    {
        let n = s.unicode_len();
        let e = find_char(s, ' ', 1);
        let mut next = e;
        while next < n && s.get_char(next) == ' '
            invariant
                e <= next <= n,
                n == s@.len(),
                skip_spaces(s@, next as nat) == skip_spaces(s@, e as nat),
            decreases n - next,
        {
            next = next + 1;
        }
        (s.substring_char(1, e).to_owned(), next)
    }

    /// Reads the command that starts at `i`; returns it with the index where
    /// the parameters begin.
    fn parse_command(&self, s: &str, i: usize) -> (r: Result<(String, usize), ParseError>)
        requires
            i <= s@.len(),
        ensures
            match r {
                Ok((c, j)) => command_at(s@, i as nat) == Ok::<(Seq<char>, nat), ParseError>(
                    (c@, j as nat),
                ),
                Err(e) => command_at(s@, i as nat) == Err::<(Seq<char>, nat), ParseError>(e),
            },
            r matches Ok((_, j)) ==> j <= s@.len(),
    {
        let n = s.unicode_len();
        if i >= n {
            return Err(ParseError::MissingCommand);
        }
        let c = s.get_char(i);
        let e = if '0' <= c && c <= '9' {
            let e = scan_digits(s, i);
            if e - i != 3 {
                return Err(ParseError::InvalidNumericCommand);
            }
            e
        } else {
            let e = find_char(s, ' ', i);
            if e == i {
                return Err(ParseError::MissingCommand);
            }
            e
        };
        let next = if e < n && s.get_char(e) == ' ' {
            e + 1
        } else {
            e
        };
        Ok((s.substring_char(i, e).to_owned(), next))
    }

    /// Reads the parameters from `i` to the end of `s`.
    fn parse_params(&self, s: &str, i: usize) -> (r: Result<Vec<String>, ParseError>)
        requires
            i <= s@.len(),
        ensures
            params_from(s@, i as nat).len() > MAX_PARAMS ==> r == Err::<Vec<String>, ParseError>(
                ParseError::TooManyParams,
            ),
            params_from(s@, i as nat).len() <= MAX_PARAMS ==> (r matches Ok(v) && strings_view(v@)
                == params_from(s@, i as nat)),
    {
        let n = s.unicode_len();
        let mut params: Vec<String> = Vec::new();
        let mut j = i;
        assert(strings_view(params@) + params_from(s@, j as nat) =~= params_from(s@, i as nat));
        while j < n
            invariant
                i <= j <= n,
                n == s@.len(),
                params.len() <= MAX_PARAMS,
                strings_view(params@) + params_from(s@, j as nat) == params_from(s@, i as nat),
            decreases n - j,
        {
            let ghost before = strings_view(params@);
            let ghost rest = params_from(s@, j as nat);
            if s.get_char(j) == ':' {
                params.push(s.substring_char(j + 1, n).to_owned());
                j = n;
            } else {
                let e = find_char(s, ' ', j);
                params.push(s.substring_char(j, e).to_owned());
                j = if e < n && s.get_char(e) == ' ' {
                    e + 1
                } else {
                    e
                };
            }
            assert(strings_view(params@) =~= before.push(rest[0]));
            assert(strings_view(params@) + params_from(s@, j as nat) =~= before + rest);
            if params.len() > MAX_PARAMS {
                return Err(ParseError::TooManyParams);
            }
        }
        assert(strings_view(params@) + params_from(s@, j as nat) =~= strings_view(params@));
        Ok(params)
    }
}

} // verus!
