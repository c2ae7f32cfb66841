//! Properties of the line grammar, proved over its specification.
use vstd::prelude::*;

verus! {

use crate::parser::{
    command_at,
    digits_end,
    find_from,
    is_blank,
    is_digit,
    lacks,
    lemma_find_from_bounds,
    origin_of,
    params_from,
    parse_line,
    prefix_end,
    skip_sep,
    skip_spaces,
    spaceless,
    strip_crlf,
    MessageView,
    ParseError,
    MAX_PARAMS,
};
use crate::render::{params_text, origin_text, read_display, read_origin, render_view, DisplayFields};

/// A search for `c` from `i` stops at `j` when `j` is the first place that holds it.
pub proof fn lemma_find_from_exact(s: Seq<char>, c: char, i: nat, j: nat)
    requires
        i <= j <= s.len(),
        j < s.len() ==> s[j as int] == c,
        forall|k: int| i <= k < j ==> s[k] != c,
    ensures
        find_from(s, c, i) == j,
    decreases j - i,
{
    if i < j {
        lemma_find_from_exact(s, c, i + 1, j);
    }
}

/// Skipping spaces never moves backwards nor past the end.
pub proof fn lemma_skip_spaces_bounds(s: Seq<char>, i: nat)
    requires
        i <= s.len(),
    ensures
        i <= skip_spaces(s, i) <= s.len(),
    decreases s.len() - i,
{
    if i < s.len() && s[i as int] == ' ' {
        lemma_skip_spaces_bounds(s, i + 1);
    }
}

/// Skipping spaces from `i` stops at `j` when `j` is the first non-space.
pub proof fn lemma_skip_spaces_exact(s: Seq<char>, i: nat, j: nat)
    requires
        i <= j <= s.len(),
        j < s.len() ==> s[j as int] != ' ',
        forall|k: int| i <= k < j ==> s[k] == ' ',
    ensures
        skip_spaces(s, i) == j,
    decreases j - i,
{
    if i < j {
        lemma_skip_spaces_exact(s, i + 1, j);
    }
}

/// A digit run from `i` ends at `j` when `j` is the first non-digit.
pub proof fn lemma_digits_end_exact(s: Seq<char>, i: nat, j: nat)
    requires
        i <= j <= s.len(),
        j < s.len() ==> !is_digit(s[j as int]),
        forall|k: int| i <= k < j ==> is_digit(s[k]),
    ensures
        digits_end(s, i) == j,
    decreases j - i,
{
    if i < j {
        lemma_digits_end_exact(s, i + 1, j);
    }
}

/// `t` ends in a carriage return and a line feed.
pub open spec fn ends_crlf(t: Seq<char>) -> bool {
    t.len() >= 2 && t[t.len() - 2] == '\r' && t[t.len() - 1] == '\n'
}

/// A command word: not empty, no space, not led by a digit. Without a prefix
/// it must not start with `:` and must hold a character that is not blank.
pub open spec fn word_command(prefix: Option<Seq<char>>, cmd: Seq<char>) -> bool {
    &&& cmd.len() > 0
    &&& spaceless(cmd)
    &&& !is_digit(cmd[0])
    &&& prefix is None ==> cmd[0] != ':' && exists|k: int| 0 <= k < cmd.len() && !is_blank(#[trigger] cmd[k])
}

/// Removing line endings from `a + b` leaves `a` alone when `b` starts with a space.
pub proof fn lemma_strip_keeps_front(a: Seq<char>, b: Seq<char>)
    requires
        b.len() > 0 ==> b[0] == ' ',
        b.len() == 0 ==> !ends_crlf(a),
    ensures
        strip_crlf(a + b) == a + strip_crlf(b),
        strip_crlf(b).len() > 0 ==> strip_crlf(b)[0] == ' ',
    decreases b.len(),
{
    let ab = a + b;
    if b.len() >= 2 && b[b.len() - 2] == '\r' && b[b.len() - 1] == '\n' {
        let b2 = b.subrange(0, b.len() - 2);
        assert(ab.subrange(0, ab.len() - 2) =~= a + b2);
        lemma_strip_keeps_front(a, b2);
    } else if b.len() == 0 {
        assert(ab =~= a);
        assert(a + strip_crlf(b) =~= a);
    } else {
        assert(ab[ab.len() - 1] == b[b.len() - 1]);
        if b.len() >= 2 {
            assert(ab[ab.len() - 2] == b[b.len() - 2]);
        }
    }
}


/// A digit run never moves backwards nor past the end, and holds only digits.
pub proof fn lemma_digits_end_bounds(s: Seq<char>, i: nat)
    requires
        i <= s.len(),
    ensures
        i <= digits_end(s, i) <= s.len(),
        forall|k: int| i <= k < digits_end(s, i) ==> is_digit(s[k]),
    decreases s.len() - i,
{
    if i < s.len() && is_digit(s[i as int]) {
        lemma_digits_end_bounds(s, i + 1);
    }
}

/// Only the last parameter of a line can hold a space.
pub proof fn lemma_params_spaceless(s: Seq<char>, i: nat)
    requires
        i <= s.len(),
    ensures
        forall|j: int|
            0 <= j < params_from(s, i).len() - 1 ==> spaceless(#[trigger] params_from(s, i)[j]),
    decreases s.len() - i,
{
    if i < s.len() && s[i as int] != ':' {
        lemma_find_from_bounds(s, ' ', i);
        let e = find_from(s, ' ', i);
        let next = skip_sep(s, e);
        lemma_params_spaceless(s, next);
        let tok = s.subrange(i as int, e as int);
        let tail = params_from(s, next);
        let ps = params_from(s, i);
        assert(ps == seq![tok] + tail);
        assert(spaceless(tok));
        assert forall|j: int| 0 <= j < ps.len() - 1 implies spaceless(#[trigger] ps[j]) by {
            if j > 0 {
                assert(ps[j] == tail[j - 1]);
            }
        }
    }
}

/// Every message that parsing gives satisfies `MessageView::wf`.
pub proof fn lemma_parsed_well_formed(line: Seq<char>)
    ensures
        parse_line(line) matches Ok(m) ==> m.wf(),
{
    let s = strip_crlf(line);
    if parse_line(line) is Ok {
        let has_prefix = s[0] == ':';
        if has_prefix {
            lemma_find_from_bounds(s, ' ', 1);
            let p = s.subrange(1, prefix_end(s) as int);
            assert(spaceless(p));
            lemma_find_from_bounds(p, '@', 0);
            let a = find_from(p, '@', 0);
            if a < p.len() {
                let name = p.subrange(0, a as int);
                lemma_find_from_bounds(name, '!', 0);
                let b = find_from(name, '!', 0);
                assert(spaceless(name));
                assert(lacks(name, '@'));
                assert(spaceless(p.subrange(a + 1 as int, p.len() as int)));
                if b < name.len() {
                    assert(spaceless(name.subrange(0, b as int)));
                    assert(lacks(name.subrange(0, b as int), '@'));
                    assert(lacks(name.subrange(0, b as int), '!'));
                    assert(spaceless(name.subrange(b + 1 as int, name.len() as int)));
                    assert(lacks(name.subrange(b + 1 as int, name.len() as int), '@'));
                }
            }
        }
        if has_prefix {
            lemma_skip_spaces_bounds(s, prefix_end(s));
        }
        let start: nat = if has_prefix { skip_spaces(s, prefix_end(s)) } else { 0 };
        lemma_find_from_bounds(s, ' ', start);
        lemma_digits_end_bounds(s, start);
        let (command, next) = command_at(s, start)->Ok_0;
        assert(spaceless(command));
        lemma_params_spaceless(s, next);
    }
}


/// The start of a line: `:` with the prefix token and a space, or nothing.
pub open spec fn head_of(prefix: Option<Seq<char>>) -> Seq<char> {
    match prefix {
        Some(p) => seq![':'] + p + seq![' '],
        None => Seq::empty(),
    }
}

/// The origin fields that a line starting with `head_of(prefix)` carries.
pub open spec fn origin_for(prefix: Option<Seq<char>>) -> (
    Option<Seq<char>>,
    Option<Seq<char>>,
    Option<Seq<char>>,
    Option<Seq<char>>,
) {
    match prefix {
        Some(p) => origin_of(p),
        None => (None, None, None, None),
    }
}

/// A prefix token: it runs up to the first space.
pub open spec fn prefix_ok(prefix: Option<Seq<char>>) -> bool {
    prefix matches Some(p) ==> spaceless(p)
}

/// What may follow the command: nothing, or a space and the parameters.
pub open spec fn tail_ok(rest: Seq<char>) -> bool {
    rest.len() > 0 ==> rest[0] == ' '
}

pub open spec fn fields_of(m: MessageView) -> (
    Option<Seq<char>>,
    Option<Seq<char>>,
    Option<Seq<char>>,
    Option<Seq<char>>,
) {
    (m.server, m.nick, m.user, m.host)
}

/// The parameters of the line `head_of(prefix) + cmd + rest`.
pub open spec fn params_after(prefix: Option<Seq<char>>, cmd: Seq<char>, rest: Seq<char>) -> Seq<
    Seq<char>,
> {
    let s = head_of(prefix) + cmd + strip_crlf(rest);
    params_from(s, skip_sep(s, head_of(prefix).len() + cmd.len()))
}

/// A line made of an optional prefix, a command that is a word or a run of
/// digits, and the rest, carries that prefix's origin and that command, and
/// can fail only with too many parameters; a run of digits whose length is
/// not three is refused.
pub proof fn lemma_command_line(prefix: Option<Seq<char>>, cmd: Seq<char>, rest: Seq<char>)
    requires
        prefix_ok(prefix),
        (word_command(prefix, cmd) && (rest.len() == 0 ==> !ends_crlf(cmd))) || (cmd.len() > 0
            && digit_run(cmd)),
        tail_ok(rest),
    ensures
        if digit_run(cmd) && cmd.len() != 3 {
            parse_line(head_of(prefix) + cmd + rest) == Err::<MessageView, ParseError>(
                ParseError::InvalidNumericCommand,
            )
        } else {
            match parse_line(head_of(prefix) + cmd + rest) {
                Ok(m) => fields_of(m) == origin_for(prefix) && m.command == cmd && m.params
                    == params_after(prefix, cmd, rest),
                Err(e) => e == ParseError::TooManyParams && params_after(prefix, cmd, rest).len()
                    > MAX_PARAMS,
            }
        },
{
    let h = head_of(prefix);
    let body = h + cmd;
    let line = body + rest;
    let hl = h.len();
    let is_word = word_command(prefix, cmd) && (rest.len() == 0 ==> !ends_crlf(cmd));
    if rest.len() == 0 {
        assert(body.last() == cmd.last());
        if cmd.len() >= 2 {
            assert(body[body.len() - 2] == cmd[cmd.len() - 2]);
        } else if body.len() >= 2 {
            assert(body[body.len() - 2] == h.last());
        }
        if !is_word {
            assert(is_digit(cmd[cmd.len() - 1]));
        }
    }
    lemma_strip_keeps_front(body, rest);
    let r2 = strip_crlf(rest);
    let s = body + r2;
    assert(strip_crlf(line) == s);
    assert(s[hl as int] == cmd[0]);
    if is_word {
        assert(!is_digit(cmd[0]));
    } else {
        assert(is_digit(cmd[0]));
    }
    assert(cmd[0] != ' ');
    match prefix {
        Some(p) => {
            assert(!is_blank(s[0]));
        },
        None => {
            if is_word {
                let w = choose|k: int| 0 <= k < cmd.len() && !is_blank(#[trigger] cmd[k]);
                assert(s[w] == cmd[w]);
                assert(!is_blank(s[w]));
            } else {
                assert(!is_blank(s[0]));
            }
        },
    }
    let start: nat = if s[0] == ':' { skip_spaces(s, prefix_end(s)) } else { 0 };
    match prefix {
        Some(p) => {
            assert(s[0] == ':');
            assert forall|k: int| 1 <= k < 1 + p.len() implies s[k] != ' ' by {
                assert(s[k] == p[k - 1]);
            }
            lemma_find_from_exact(s, ' ', 1, 1 + p.len());
            assert(s.subrange(1, prefix_end(s) as int) =~= p);
            assert(s[1 + p.len() as int] == ' ');
            assert(s[hl as int] != ' ');
            lemma_skip_spaces_exact(s, 1 + p.len(), hl);
            assert(start == hl);
        },
        None => {
            assert(s[0] == cmd[0]);
            assert(start == hl);
        },
    }
    let e = hl + cmd.len();
    assert forall|k: int| hl <= k < e implies s[k] == cmd[k - hl] by {}
    assert(s.subrange(hl as int, e as int) =~= cmd);
    if e < s.len() {
        assert(s[e as int] == r2[0]);
    }
    if !is_word {
        assert forall|k: int| hl <= k < e implies is_digit(s[k]) by {
            assert(s[k] == cmd[k - hl]);
        }
        lemma_digits_end_exact(s, hl, e);
    } else {
        assert(!digit_run(cmd));
        assert forall|k: int| hl <= k < e implies s[k] != ' ' by {
            assert(s[k] == cmd[k - hl]);
        }
        lemma_find_from_exact(s, ' ', hl, e);
    }
}

pub open spec fn digit_run(d: Seq<char>) -> bool {
    forall|k: int| 0 <= k < d.len() ==> is_digit(#[trigger] d[k])
}

/// A prefix token without `@` names a server.
pub proof fn lemma_origin_server(name: Seq<char>)
    requires
        lacks(name, '@'),
    ensures
        origin_of(name) == (Some(name), None::<Seq<char>>, None::<Seq<char>>, None::<Seq<char>>),
{
    lemma_find_from_exact(name, '@', 0, name.len());
}

/// A prefix token `nick@host` names a nick and a host, and no user.
pub proof fn lemma_origin_nick_host(nick: Seq<char>, host: Seq<char>)
    requires
        lacks(nick, '@'),
        lacks(nick, '!'),
    ensures
        origin_of(nick + seq!['@'] + host) == (None::<Seq<char>>, Some(nick), None::<Seq<char>>, Some(host)),
{
    let p = nick + seq!['@'] + host;
    assert forall|k: int| 0 <= k < nick.len() implies p[k] != '@' by {
        assert(p[k] == nick[k]);
    }
    lemma_find_from_exact(p, '@', 0, nick.len());
    assert(p.subrange(0, nick.len() as int) =~= nick);
    assert(p.subrange(nick.len() + 1 as int, p.len() as int) =~= host);
    lemma_find_from_exact(nick, '!', 0, nick.len());
}

/// A prefix token `nick!user@host` names a nick, a user and a host.
pub proof fn lemma_origin_nick_user_host(nick: Seq<char>, user: Seq<char>, host: Seq<char>)
    requires
        lacks(nick, '@'),
        lacks(nick, '!'),
        lacks(user, '@'),
    ensures
        origin_of(nick + seq!['!'] + user + seq!['@'] + host) == (
            None::<Seq<char>>,
            Some(nick),
            Some(user),
            Some(host),
        ),
{
    let name = nick + seq!['!'] + user;
    let p = name + seq!['@'] + host;
    assert forall|k: int| 0 <= k < name.len() implies p[k] != '@' by {
        assert(p[k] == name[k]);
        if k > nick.len() {
            assert(name[k] == user[k - nick.len() - 1]);
        }
    }
    lemma_find_from_exact(p, '@', 0, name.len());
    assert(p.subrange(0, name.len() as int) =~= name);
    assert(p.subrange(name.len() + 1 as int, p.len() as int) =~= host);
    assert forall|k: int| 0 <= k < nick.len() implies name[k] != '!' by {
        assert(name[k] == nick[k]);
    }
    lemma_find_from_exact(name, '!', 0, nick.len());
    assert(name.subrange(0, nick.len() as int) =~= nick);
    assert(name.subrange(nick.len() + 1 as int, name.len() as int) =~= user);
}

/// A line `:name CMD...` whose prefix has no `@` comes from the server `name`,
/// with no nick, user or host, and has command `CMD`; it parses unless it has
/// too many parameters.
pub proof fn law_server_prefix(name: Seq<char>, cmd: Seq<char>, rest: Seq<char>)
    requires
        spaceless(name),
        lacks(name, '@'),
        word_command(Some(name), cmd),
        rest.len() == 0 ==> !ends_crlf(cmd),
        tail_ok(rest),
    ensures
        match parse_line(head_of(Some(name)) + cmd + rest) {
            Ok(m) => m.server == Some(name) && m.nick is None && m.user is None && m.host is None
                && m.command == cmd,
            Err(e) => e == ParseError::TooManyParams,
        },
{
    lemma_origin_server(name);
    assert(!is_digit(cmd[0]));
    lemma_command_line(Some(name), cmd, rest);
}

/// A line `:nick@host CMD...` comes from `nick` at `host`, with no user.
pub proof fn law_nick_host_prefix(nick: Seq<char>, host: Seq<char>, cmd: Seq<char>, rest: Seq<char>)
    requires
        spaceless(nick),
        lacks(nick, '@'),
        lacks(nick, '!'),
        spaceless(host),
        word_command(Some(nick + seq!['@'] + host), cmd),
        rest.len() == 0 ==> !ends_crlf(cmd),
        tail_ok(rest),
    ensures
        match parse_line(head_of(Some(nick + seq!['@'] + host)) + cmd + rest) {
            Ok(m) => m.server is None && m.nick == Some(nick) && m.user is None && m.host == Some(
                host,
            ) && m.command == cmd,
            Err(e) => e == ParseError::TooManyParams,
        },
{
    let p = nick + seq!['@'] + host;
    assert forall|k: int| 0 <= k < p.len() implies p[k] != ' ' by {
        if k < nick.len() {
            assert(p[k] == nick[k]);
        } else if k > nick.len() {
            assert(p[k] == host[k - nick.len() - 1]);
        }
    }
    lemma_origin_nick_host(nick, host);
    assert(!is_digit(cmd[0]));
    lemma_command_line(Some(p), cmd, rest);
}

/// A line `:nick!user@host CMD...` comes from `nick`, `user` and `host`.
pub proof fn law_nick_user_host_prefix(
    nick: Seq<char>,
    user: Seq<char>,
    host: Seq<char>,
    cmd: Seq<char>,
    rest: Seq<char>,
)
    requires
        spaceless(nick),
        lacks(nick, '@'),
        lacks(nick, '!'),
        spaceless(user),
        lacks(user, '@'),
        spaceless(host),
        word_command(Some(nick + seq!['!'] + user + seq!['@'] + host), cmd),
        rest.len() == 0 ==> !ends_crlf(cmd),
        tail_ok(rest),
    ensures
        match parse_line(head_of(Some(nick + seq!['!'] + user + seq!['@'] + host)) + cmd + rest) {
            Ok(m) => m.server is None && m.nick == Some(nick) && m.user == Some(user) && m.host
                == Some(host) && m.command == cmd,
            Err(e) => e == ParseError::TooManyParams,
        },
{
    let p = nick + seq!['!'] + user + seq!['@'] + host;
    let n1 = nick.len() as int;
    let n2 = n1 + 1 + user.len();
    assert forall|k: int| 0 <= k < p.len() implies p[k] != ' ' by {
        if k < n1 {
            assert(p[k] == nick[k]);
        } else if n1 < k < n2 {
            assert(p[k] == user[k - n1 - 1]);
        } else if k > n2 {
            assert(p[k] == host[k - n2 - 1]);
        }
    }
    lemma_origin_nick_user_host(nick, user, host);
    assert(!is_digit(cmd[0]));
    lemma_command_line(Some(p), cmd, rest);
}

/// A command of exactly three digits is taken as it stands.
pub proof fn law_numeric_command(prefix: Option<Seq<char>>, digits: Seq<char>, rest: Seq<char>)
    requires
        prefix_ok(prefix),
        digits.len() == 3,
        digit_run(digits),
        tail_ok(rest),
    ensures
        match parse_line(head_of(prefix) + digits + rest) {
            Ok(m) => m.command == digits,
            Err(e) => e == ParseError::TooManyParams,
        },
{
    lemma_command_line(prefix, digits, rest);
}


/// A leading run of digits whose length is not three makes the line fail,
/// with or without a prefix and whatever follows.
pub proof fn law_bad_numeric_command(prefix: Option<Seq<char>>, digits: Seq<char>, rest: Seq<char>)
    requires
        prefix_ok(prefix),
        digits.len() > 0,
        digits.len() != 3,
        digit_run(digits),
        tail_ok(rest),
    ensures
        parse_line(head_of(prefix) + digits + rest) == Err::<MessageView, ParseError>(
            ParseError::InvalidNumericCommand,
        ),
{
    lemma_command_line(prefix, digits, rest);
}


/// A middle parameter as a line spells it: not empty, no space, no `:` in
/// front, and no line feed (so that no line ending is taken from it).
pub open spec fn plain_param(p: Seq<char>) -> bool {
    p.len() > 0 && spaceless(p) && p[0] != ':' && lacks(p, '\n')
}

/// The parameters written out, each after one space.
pub open spec fn joined(ps: Seq<Seq<char>>) -> Seq<char>
    decreases ps.len(),
{
    if ps.len() == 0 {
        Seq::empty()
    } else {
        seq![' '] + ps[0] + joined(ps.drop_first())
    }
}

/// Written-out plain parameters start with a space and end in no line feed.
pub proof fn lemma_joined_shape(ps: Seq<Seq<char>>)
    requires
        forall|i: int| 0 <= i < ps.len() ==> plain_param(#[trigger] ps[i]),
    ensures
        joined(ps).len() > 0 ==> joined(ps)[0] == ' ' && joined(ps).last() != '\n',
        strip_crlf(joined(ps)) == joined(ps),
    decreases ps.len(),
{
    if ps.len() > 0 {
        let t = ps.drop_first();
        assert forall|i: int| 0 <= i < t.len() implies plain_param(#[trigger] t[i]) by {
            assert(t[i] == ps[i + 1]);
        }
        lemma_joined_shape(t);
        let j = joined(ps);
        assert(plain_param(ps[0]));
        if joined(t).len() == 0 {
            assert(j.last() == ps[0].last());
        } else {
            assert(j.last() == joined(t).last());
        }
    }
}

/// Reading parameters back from written-out plain parameters gives them again.
pub proof fn lemma_params_of_joined(a: Seq<char>, ps: Seq<Seq<char>>)
    requires
        forall|i: int| 0 <= i < ps.len() ==> plain_param(#[trigger] ps[i]),
    ensures
        params_from(a + joined(ps), skip_sep(a + joined(ps), a.len())) == ps,
    decreases ps.len(),
{
    let s = a + joined(ps);
    if ps.len() == 0 {
        assert(s =~= a);
        assert(ps =~= Seq::<Seq<char>>::empty());
    } else {
        let p0 = ps[0];
        let t = ps.drop_first();
        assert forall|i: int| 0 <= i < t.len() implies plain_param(#[trigger] t[i]) by {
            assert(t[i] == ps[i + 1]);
        }
        lemma_joined_shape(t);
        assert(plain_param(p0));
        let a2 = a + seq![' '] + p0;
        assert(s =~= a2 + joined(t));
        let i = a.len() + 1;
        assert(s[a.len() as int] == ' ');
        assert(skip_sep(s, a.len()) == i);
        assert(s[i as int] == p0[0]);
        assert forall|k: int| i <= k < a2.len() implies s[k] != ' ' by {
            assert(s[k] == p0[k - i]);
        }
        if a2.len() < s.len() {
            assert(s[a2.len() as int] == joined(t)[0]);
        }
        lemma_find_from_exact(s, ' ', i, a2.len());
        assert(s.subrange(i as int, a2.len() as int) =~= p0);
        lemma_params_of_joined(a2, t);
        assert(ps =~= seq![p0] + t);
    }
}

/// A line whose parameters are plain tokens carries exactly those
/// parameters when there are at most `MAX_PARAMS` of them, and fails with
/// `TooManyParams` when there are more, whatever its prefix and command.
pub proof fn law_param_count(prefix: Option<Seq<char>>, cmd: Seq<char>, ps: Seq<Seq<char>>)
    requires
        prefix_ok(prefix),
        word_command(prefix, cmd) || (digit_run(cmd) && cmd.len() == 3),
        ps.len() == 0 ==> !ends_crlf(cmd),
        forall|i: int| 0 <= i < ps.len() ==> plain_param(#[trigger] ps[i]),
    ensures
        ps.len() > MAX_PARAMS ==> parse_line(head_of(prefix) + cmd + joined(ps)) == Err::<
            MessageView,
            ParseError,
        >(ParseError::TooManyParams),
        ps.len() <= MAX_PARAMS ==> (parse_line(head_of(prefix) + cmd + joined(ps)) matches Ok(m)
            && m.params == ps && m.command == cmd),
{
    lemma_joined_shape(ps);
    if word_command(prefix, cmd) {
        assert(!is_digit(cmd[0]));
    }
    lemma_command_line(prefix, cmd, joined(ps));
    lemma_params_of_joined(head_of(prefix) + cmd, ps);
}

/// The origin part of a display form reads back as the server, nick, user
/// and host of a well-formed message, whatever follows it after a `C`.
pub proof fn lemma_read_origin_of_wf(m: MessageView, after: Seq<char>)
    requires
        m.wf(),
        after.len() > 0,
        after[0] == 'C',
    ensures
        read_origin(origin_text(m) + after) == Some(
            ((m.server, m.nick, m.user, m.host), origin_text(m).len()),
        ),
{
    reveal_strlit("Server: ");
    reveal_strlit("User: ");
    let sv = "Server: "@;
    let us = "User: "@;
    let o = origin_text(m);
    let t = o + after;
    match m.server {
        Some(x) => {
            assert(t =~= sv + (x + seq![' '] + after));
            assert(t.subrange(0, 8) =~= sv);
            assert forall|k: int| 8 <= k < 8 + x.len() implies t[k] != ' ' by {
                assert(t[k] == x[k - 8]);
            }
            assert(t[8 + x.len() as int] == ' ');
            lemma_find_from_exact(t, ' ', 8, 8 + x.len());
            assert(t.subrange(8, 8 + x.len() as int) =~= x);
        },
        None => match m.nick {
            Some(n) => {
                let h = m.host->Some_0;
                let uu = match m.user {
                    Some(u) => seq!['!'] + u,
                    None => Seq::<char>::empty(),
                };
                let name = n + uu;
                let seg = name + seq!['@'] + h + seq![','];
                assert(o =~= us + seg + seq![' ']);
                assert(t =~= us + (seg + seq![' '] + after));
                assert(t.subrange(0, 8)[0] != sv[0]);
                assert(t.subrange(0, 6) =~= us);
                assert forall|k: int| 0 <= k < seg.len() implies seg[k] != ' ' by {
                    if k < n.len() {
                        assert(seg[k] == n[k]);
                    } else if k < name.len() {
                        if let Some(u) = m.user {
                            if k > n.len() {
                                assert(seg[k] == u[k - n.len() - 1]);
                            }
                        }
                    } else if name.len() < k < name.len() + 1 + h.len() {
                        assert(seg[k] == h[k - name.len() - 1]);
                    }
                }
                assert forall|k: int| 6 <= k < 6 + seg.len() implies t[k] != ' ' by {
                    assert(t[k] == seg[k - 6]);
                }
                let e = 6 + seg.len();
                assert(t[e as int] == ' ');
                lemma_find_from_exact(t, ' ', 6, e as nat);
                assert(t[e - 1] == ',');
                assert(t.subrange(6, e - 1) =~= name + seq!['@'] + h);
                match m.user {
                    Some(u) => {
                        assert(name + seq!['@'] + h =~= n + seq!['!'] + u + seq!['@'] + h);
                        lemma_origin_nick_user_host(n, u, h);
                    },
                    None => {
                        assert(name =~= n);
                        lemma_origin_nick_host(n, h);
                    },
                }
            },
            None => {
                assert(o =~= Seq::<char>::empty());
                assert(t =~= after);
                if t.len() >= 8 {
                    assert(t.subrange(0, 8)[0] != sv[0]);
                }
                if t.len() >= 6 {
                    assert(t.subrange(0, 6)[0] != us[0]);
                }
            },
        },
    }
}

/// The display form of a well-formed message reads back as its server,
/// nick, user, host and command, and as the text of its parameter list.
pub proof fn lemma_read_display_of_wf(m: MessageView)
    requires
        m.wf(),
    ensures
        read_display(render_view(m)) == Some(
            DisplayFields {
                server: m.server,
                nick: m.nick,
                user: m.user,
                host: m.host,
                command: m.command,
                params_text: params_text(m.params),
            },
        ),
{
    reveal_strlit("Command: ");
    reveal_strlit("Params: ");
    let cm = "Command: "@;
    let pm = "Params: "@;
    let o = origin_text(m);
    let pt = params_text(m.params);
    let cmd = m.command;
    let t = render_view(m);
    let i = o.len();
    let after = cm + cmd + seq![',', ' '] + pm + pt;
    assert(t =~= o + after);
    lemma_read_origin_of_wf(m, after);
    let a = i + 9;
    assert(t.subrange(i as int, a as int) =~= cm);
    let e = a + cmd.len() + 1;
    assert forall|k: int| a <= k < e implies t[k] != ' ' by {
        if k < a + cmd.len() {
            assert(t[k] == cmd[k - a]);
        }
    }
    assert(t[e as int] == ' ');
    lemma_find_from_exact(t, ' ', a, e);
    assert(t[e - 1] == ',');
    let b = e + 1 + 8;
    assert(t.subrange(e + 1 as int, b as int) =~= pm);
    assert(t.subrange(a as int, e - 1) =~= cmd);
    assert(t.subrange(b as int, t.len() as int) =~= pt);
}

/// Rendering a parsed message and reading the display form back gives the
/// same server, nick, user, host and command, and the parameter list as
/// `{:?}` writes it.
pub proof fn law_render_round_trip(line: Seq<char>)
    ensures
        parse_line(line) matches Ok(m) ==> read_display(render_view(m)) == Some(
            DisplayFields {
                server: m.server,
                nick: m.nick,
                user: m.user,
                host: m.host,
                command: m.command,
                params_text: params_text(m.params),
            },
        ),
{
    lemma_parsed_well_formed(line);
    if let Ok(m) = parse_line(line) {
        lemma_read_display_of_wf(m);
    }
}

} // verus!
