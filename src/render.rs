//! The human-readable form of a `Message`.
use vstd::prelude::*;

verus! {

use crate::parser::{find_from, origin_of, Message, MessageView};

/// What `{:?}` writes for a text: the text in double quotes, with the
/// escapes of std's `Debug` for `str`.
pub uninterp spec fn debug_text_of(s: Seq<char>) -> Seq<char>;

/// Relies on std's `Debug` for `str` (through `format!("{:?}", ..)`): the
/// quoted, escaped form of a text, a function of its characters alone.
#[verifier::external_body]
fn debug_text(s: &str) -> (r: String)
    ensures
        r@ == debug_text_of(s@),
{
    format!("{:?}", s)
}

/// The debug forms of the texts, separated by `", "`.
pub open spec fn quoted_list(ps: Seq<Seq<char>>) -> Seq<char>
    decreases ps.len(),
{
    if ps.len() == 0 {
        Seq::empty()
    } else if ps.len() == 1 {
        debug_text_of(ps[0])
    } else {
        debug_text_of(ps[0]) + seq![',', ' '] + quoted_list(ps.drop_first())
    }
}

/// The parameter list as `{:?}` writes a list of texts: in brackets.
pub open spec fn params_text(ps: Seq<Seq<char>>) -> Seq<char> {
    seq!['['] + quoted_list(ps) + seq![']']
}

/// `Server: name ` for a server, `User: nick!user@host, ` for a client (each
/// part that is present), nothing without an origin.
pub open spec fn origin_text(m: MessageView) -> Seq<char> {
    match m.server {
        Some(s) => "Server: "@ + s + seq![' '],
        None => match m.nick {
            Some(n) => "User: "@ + n + match m.user {
                Some(u) => seq!['!'] + u,
                None => Seq::empty(),
            } + match m.host {
                Some(h) => seq!['@'] + h + seq![',', ' '],
                None => Seq::empty(),
            },
            None => Seq::empty(),
        },
    }
}

/// The whole display form of a message.
pub open spec fn render_view(m: MessageView) -> Seq<char> {
    origin_text(m) + "Command: "@ + m.command + seq![',', ' '] + "Params: "@ + params_text(m.params)
}

/// What a display form shows: the origin, the command, and the text of the
/// parameter list.
pub struct DisplayFields {
    pub server: Option<Seq<char>>,
    pub nick: Option<Seq<char>>,
    pub user: Option<Seq<char>>,
    pub host: Option<Seq<char>>,
    pub command: Seq<char>,
    pub params_text: Seq<char>,
}

/// Reads the origin part of a display form; gives the server, nick, user and
/// host, and the index where `Command: ` starts.
pub open spec fn read_origin(t: Seq<char>) -> Option<
    ((Option<Seq<char>>, Option<Seq<char>>, Option<Seq<char>>, Option<Seq<char>>), nat),
> {
    let sv = "Server: "@;
    let us = "User: "@;
    if t.len() >= sv.len() && t.subrange(0, sv.len() as int) == sv {
        let e = find_from(t, ' ', sv.len());
        if e < t.len() {
            Some(((Some(t.subrange(sv.len() as int, e as int)), None, None, None), e + 1))
        } else {
            None
        }
    } else if t.len() >= us.len() && t.subrange(0, us.len() as int) == us {
        let e = find_from(t, ' ', us.len());
        if us.len() < e < t.len() && t[e - 1] == ',' {
            Some((origin_of(t.subrange(us.len() as int, e - 1)), e + 1))
        } else {
            None
        }
    } else {
        Some(((None, None, None, None), 0))
    }
}

/// The fields that a display form shows, if it is one.
pub open spec fn read_display(t: Seq<char>) -> Option<DisplayFields> {
    match read_origin(t) {
        Some((o, i)) => {
            let cm = "Command: "@;
            let pm = "Params: "@;
            let a = i + cm.len();
            if a <= t.len() && t.subrange(i as int, a as int) == cm {
                let e = find_from(t, ' ', a);
                let b = e + 1 + pm.len();
                if a < e && t[e - 1] == ',' && b <= t.len() && t.subrange(e + 1 as int, b as int)
                    == pm {
                    Some(
                        DisplayFields {
                            server: o.0,
                            nick: o.1,
                            user: o.2,
                            host: o.3,
                            command: t.subrange(a as int, e - 1),
                            params_text: t.subrange(b as int, t.len() as int),
                        },
                    )
                } else {
                    None
                }
            } else {
                None
            }
        },
        None => None,
    }
}

/// Listing one more text adds a separator and that text.
pub proof fn lemma_quoted_list_push(ps: Seq<Seq<char>>, p: Seq<char>)
    ensures
        quoted_list(ps.push(p)) == if ps.len() == 0 {
            debug_text_of(p)
        } else {
            quoted_list(ps) + seq![',', ' '] + debug_text_of(p)
        },
    decreases ps.len(),
{
    if ps.len() == 1 {
        assert(ps.push(p).drop_first() =~= seq![p]);
        assert(quoted_list(ps.push(p).drop_first()) == debug_text_of(p));
    } else if ps.len() > 1 {
        assert(ps.push(p).drop_first() =~= ps.drop_first().push(p));
        lemma_quoted_list_push(ps.drop_first(), p);
        assert(quoted_list(ps.push(p)) =~= quoted_list(ps) + seq![',', ' '] + debug_text_of(p));
    }
}

impl Message {
    /// The display form: the origin, then `Command: ...`, then the
    /// parameters as `{:?}` writes a list of texts.
    pub fn render(&self) -> (r: String)
        ensures
            r@ == render_view(self@),
    {
        let mut out = String::new();
        match &self.server {
            Some(s) => {
                out.append("Server: ");
                out.append(s.as_str());
                out.append(" ");
            },
            None => match &self.nick {
                Some(n) => {
                    out.append("User: ");
                    out.append(n.as_str());
                    match &self.user {
                        Some(u) => {
                            out.append("!");
                            out.append(u.as_str());
                        },
                        None => {},
                    }
                    match &self.host {
                        Some(h) => {
                            out.append("@");
                            out.append(h.as_str());
                            out.append(", ");
                        },
                        None => {},
                    }
                },
                None => {},
            },
        }
        proof {
            reveal_strlit(" ");
            reveal_strlit("!");
            reveal_strlit("@");
            reveal_strlit(", ");
            assert(out@ =~= origin_text(self@));
        }
        let ghost head = out@;
        out.append("Command: ");
        out.append(self.command.as_str());
        out.append(", ");
        out.append("Params: [");
        let ghost lead = out@;
        let mut k: usize = 0;
        while k < self.params.len()
            invariant
                k <= self.params.len(),
                out@ == lead + quoted_list(self@.params.subrange(0, k as int)),
            decreases self.params.len() - k,
        {
            let ghost before = self@.params.subrange(0, k as int);
            if k > 0 {
                out.append(", ");
            }
            let item = debug_text(self.params[k].as_str());
            out.append(item.as_str());
            proof {
                reveal_strlit(", ");
                assert(self@.params.subrange(0, k + 1) =~= before.push(self.params[k as int]@));
                lemma_quoted_list_push(before, self.params[k as int]@);
                assert(out@ =~= lead + quoted_list(self@.params.subrange(0, k + 1)));
            }
            k = k + 1;
        }
        out.append("]");
        proof {
            reveal_strlit("]");
            reveal_strlit("Params: ");
            reveal_strlit("Params: [");
            assert(self@.params.subrange(0, k as int) =~= self@.params);
            assert(out@ =~= render_view(self@));
        }
        out
    }
}

} // verus!
