//! The template grammar, as functions from a source and a position to what
//! is parsed there and the position after it.
//!
//! ```text
//! template ::= locale? item+
//! locale   ::= "locale" ws? ":" ws? chars "\n"
//! item     ::= option | constant | key | text
//! key      ::= "{" ident default? "}"
//! option   ::= "$" key
//! constant ::= "$" ident
//! default  ::= ":" item
//! ident    ::= (ASCII letter | digit)+
//! text     ::= (any character but '{', '}', '$')+
//! chars    ::= (any character but '{', '}', '$' and whitespace)+
//! ```

use crate::chars::is_whitespace_char;
use crate::locale::is_locale_tag;
use crate::scan::{lemma_run_end, run_end};
use crate::token::Token;
use vstd::prelude::*;

verus! {

/// The characters that delimit placeholders.
pub open spec fn is_terminal_char(c: char) -> bool {
    c == '{' || c == '}' || c == '$'
}

pub open spec fn is_ident_char(c: char) -> bool {
    ('A' <= c && c <= 'Z') || ('a' <= c && c <= 'z') || ('0' <= c && c <= '9')
}

pub open spec fn text_pred() -> spec_fn(char) -> bool {
    |c: char| !is_terminal_char(c)
}

pub open spec fn chars_pred() -> spec_fn(char) -> bool {
    |c: char| !is_terminal_char(c) && !is_whitespace_char(c)
}

pub open spec fn ident_pred() -> spec_fn(char) -> bool {
    |c: char| is_ident_char(c)
}

pub open spec fn ws_pred() -> spec_fn(char) -> bool {
    |c: char| is_whitespace_char(c)
}

/// A non-empty run of characters satisfying `pred` from `p` on, and the
/// position after it.
pub open spec fn lex_run(s: Seq<char>, p: int, pred: spec_fn(char) -> bool) -> Option<
    (Seq<char>, int),
> {
    let q = run_end(s, p, pred);
    if 0 <= p && q > p {
        Some((s.subrange(p, q), q))
    } else {
        None
    }
}

pub open spec fn parse_text(s: Seq<char>, p: int) -> Option<(Seq<char>, int)> {
    lex_run(s, p, text_pred())
}

pub open spec fn parse_chars(s: Seq<char>, p: int) -> Option<(Seq<char>, int)> {
    lex_run(s, p, chars_pred())
}

pub open spec fn parse_ident(s: Seq<char>, p: int) -> Option<(Seq<char>, int)> {
    lex_run(s, p, ident_pred())
}

pub open spec fn char_at(s: Seq<char>, p: int, c: char) -> bool {
    0 <= p < s.len() && s[p] == c
}

/// item ::= option | constant | key | text, told apart by their first
/// characters: `${` starts an option, any other `$` a constant, `{` a key.
pub open spec fn parse_item(s: Seq<char>, p: int) -> Option<(Token, int)>
    decreases s.len() - p, 3int,
{
    if p < 0 || p >= s.len() {
        None
    } else if s[p] == '$' {
        if char_at(s, p + 1, '{') {
            parse_option(s, p)
        } else {
            parse_constant(s, p)
        }
    } else if s[p] == '{' {
        parse_key(s, p)
    } else {
        match parse_text(s, p) {
            Some((t, q)) => Some((Token::Text(t), q)),
            None => None,
        }
    }
}

/// option ::= "$" key
pub open spec fn parse_option(s: Seq<char>, p: int) -> Option<(Token, int)>
    decreases s.len() - p, 2int,
{
    if 0 <= p < s.len() && s[p] == '$' {
        match parse_key(s, p + 1) {
            Some((k, q)) => Some((Token::Option(Box::new(k)), q)),
            None => None,
        }
    } else {
        None
    }
}

/// key ::= "{" ident default? "}"
pub open spec fn parse_key(s: Seq<char>, p: int) -> Option<(Token, int)>
    decreases s.len() - p, 1int,
{
    if 0 <= p < s.len() && s[p] == '{' {
        match parse_ident(s, p + 1) {
            Some((id, q)) => {
                proof {
                    lemma_run_end(s, p + 1, ident_pred());
                }
                match parse_default(s, q) {
                    Some((d, e)) => if char_at(s, e, '}') {
                        Some((Token::Key(id, d), e + 1))
                    } else {
                        None
                    },
                    None => None,
                }
            },
            None => None,
        }
    } else {
        None
    }
}

/// default ::= ":" item, where a missing colon means no default.
pub open spec fn parse_default(s: Seq<char>, p: int) -> Option<(Option<Box<Token>>, int)>
    decreases s.len() - p, 0int,
{
    if 0 <= p < s.len() && s[p] == ':' {
        match parse_item(s, p + 1) {
            Some((t, q)) => Some((Some(Box::new(t)), q)),
            None => None,
        }
    } else {
        Some((None, p))
    }
}

/// constant ::= "$" ident
pub open spec fn parse_constant(s: Seq<char>, p: int) -> Option<(Token, int)> {
    if 0 <= p < s.len() && s[p] == '$' {
        match parse_ident(s, p + 1) {
            Some((id, q)) => Some((Token::Constant(id), q)),
            None => None,
        }
    } else {
        None
    }
}

/// The items parsed one after the other from `p` on, up to the first
/// position where no item parses, and that position.
pub open spec fn parse_items(s: Seq<char>, p: int) -> (Seq<Token>, int)
    decreases s.len() - p,
{
    match parse_item(s, p) {
        Some((t, q)) => if p < q <= s.len() {
            let (rest, e) = parse_items(s, q);
            (seq![t] + rest, e)
        } else {
            (Seq::empty(), p)
        },
        None => (Seq::empty(), p),
    }
}

pub open spec fn locale_keyword() -> Seq<char> {
    seq!['l', 'o', 'c', 'a', 'l', 'e']
}

/// The literal of a locale directive at `p`, and the position after its
/// closing newline, if there is one there whose literal is a locale tag.
pub open spec fn parse_locale(s: Seq<char>, p: int) -> Option<(Seq<char>, int)> {
    let colon_at = run_end(s, p + 6, ws_pred());
    let tag_at = run_end(s, colon_at + 1, ws_pred());
    if 0 <= p && p + 6 <= s.len() && s.subrange(p, p + 6) == locale_keyword() && char_at(
        s,
        colon_at,
        ':',
    ) {
        match parse_chars(s, tag_at) {
            Some((tag, e)) => if is_locale_tag(tag) && char_at(s, e, '\n') {
                Some((tag, e + 1))
            } else {
                None
            },
            None => None,
        }
    } else {
        None
    }
}

/// Where the items of a template at `p` start: after its locale directive,
/// if it has a valid one.
pub open spec fn items_start(s: Seq<char>, p: int) -> int {
    match parse_locale(s, p) {
        Some((_, q)) => q,
        None => p,
    }
}

/// The tokens of a template at `p`, if it parses: at least one item, and
/// nothing left after the items.
pub open spec fn parse_template(s: Seq<char>, p: int) -> Option<Seq<Token>> {
    let (ts, e) = parse_items(s, items_start(s, p));
    if ts.len() > 0 && e == s.len() {
        Some(ts)
    } else {
        None
    }
}

} // verus!
