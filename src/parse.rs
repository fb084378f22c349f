//! Recursive-descent parsing of templates over a `Scanner`, following the
//! grammar of `crate::grammar`.
//!
//! Every production opens a layer when it starts. On success it commits the
//! layer, so the scanner ends up after what was parsed; on failure it aborts
//! the layer, so the scanner is back where the production started.

use crate::chars::{is_whitespace, push_text};
use crate::grammar::{
    char_at, chars_pred, ident_pred, is_terminal_char, items_start, lex_run, locale_keyword,
    parse_chars, parse_constant, parse_default, parse_ident, parse_item, parse_items, parse_key,
    parse_locale, parse_option, parse_template, parse_text, text_pred, ws_pred,
};
use crate::locale::{is_locale_tag, locale_error_message, parse_locale_tag};
use crate::scan::{
    char_steps, lemma_begin_abort, lemma_begin_commit, lemma_char_run_while, lemma_moved_twice,
    lemma_run_end, lemma_unchanged_moved, matched_len, request_while, run_end, seq_run,
    seq_steps, Action, ScanError, Scanner,
};
use crate::token::{token_wf, ContentToken, ContentTokens, Ident};
use unic_locale::parser::ParserError;
use unic_locale::Locale;
use vstd::prelude::*;

verus! {

/// A parse failure: its lexical or locale cause, what was being parsed, and
/// a hint on what would have been accepted.
#[derive(Debug)]
pub struct UserError {
    parse_error: ParseError,
    context: ContextMsg,
    possible: PossibleMsg,
}

impl UserError {
    pub closed spec fn context(&self) -> ContextMsg {
        self.context
    }

    pub closed spec fn cause(&self) -> ParseError {
        self.parse_error
    }
}

/// The cause of a parse failure.
#[derive(Debug)]
pub enum ParseError {
    LexicalError(ScanError),
    LocaleError(ParserError),
}

/// What was being parsed when a failure happened.
#[derive(Debug, PartialEq, Eq)]
pub enum ContextMsg {
    /// Invalid character(s) contained in the named section.
    InvalidContainedIn(String),
    /// Invalid opening character of the named section.
    InvalidOpeningOf(String),
    /// Invalid closing character of the named section.
    InvalidClosingOf(String),
    EmptyInput,
    /// Nothing is known of the context.
    Unknown,
}

/// The model of a `ContextMsg`.
pub enum Context {
    ContainedIn(Seq<char>),
    OpeningOf(Seq<char>),
    ClosingOf(Seq<char>),
    EmptyInput,
    Unknown,
}

impl View for ContextMsg {
    type V = Context;

    open spec fn view(&self) -> Context {
        match self {
            ContextMsg::InvalidContainedIn(what) => Context::ContainedIn(what@),
            ContextMsg::InvalidOpeningOf(what) => Context::OpeningOf(what@),
            ContextMsg::InvalidClosingOf(what) => Context::ClosingOf(what@),
            ContextMsg::EmptyInput => Context::EmptyInput,
            ContextMsg::Unknown => Context::Unknown,
        }
    }
}

/// How a context reads in messages.
pub open spec fn context_text(c: Context) -> Seq<char> {
    match c {
        Context::ContainedIn(what) => "Found invalid character(s) contained in "@ + what,
        Context::OpeningOf(what) => "Found invalid opening character for "@ + what,
        Context::ClosingOf(what) => "Found invalid closing character for "@ + what,
        Context::EmptyInput => "Cannot process an empty input"@,
        Context::Unknown => Seq::empty(),
    }
}

impl ContextMsg {
    /// The context as a message.
    pub fn message(&self) -> (r: String)
        ensures
            r@ == context_text(self@),
    {
        let mut m = String::new();
        match self {
            ContextMsg::InvalidContainedIn(what) => {
                push_text(&mut m, "Found invalid character(s) contained in ");
                push_text(&mut m, what.as_str());
            },
            ContextMsg::InvalidOpeningOf(what) => {
                push_text(&mut m, "Found invalid opening character for ");
                push_text(&mut m, what.as_str());
            },
            ContextMsg::InvalidClosingOf(what) => {
                push_text(&mut m, "Found invalid closing character for ");
                push_text(&mut m, what.as_str());
            },
            ContextMsg::EmptyInput => {
                push_text(&mut m, "Cannot process an empty input");
            },
            ContextMsg::Unknown => {},
        }
        assert(m@ =~= context_text(self@));
        m
    }
}

/// A hint on the characters that would have been accepted.
#[derive(Debug, PartialEq, Eq)]
pub enum PossibleMsg {
    DidYouMean(String),
    DidYouForget(String),
    AllowedAre(String),
    ForbiddenAre(String),
    /// No hint.
    Nothing,
}

/// How a hint reads in messages.
pub open spec fn hint_text(h: &PossibleMsg) -> Seq<char> {
    match h {
        PossibleMsg::DidYouMean(m) => "Did you maybe mean '"@ + m@ + "'?"@,
        PossibleMsg::DidYouForget(m) => "Did you maybe forget "@ + m@ + "?"@,
        PossibleMsg::AllowedAre(m) => "Allowed characters are "@ + m@,
        PossibleMsg::ForbiddenAre(m) => "Forbidden characters are "@ + m@,
        PossibleMsg::Nothing => Seq::empty(),
    }
}

impl PossibleMsg {
    /// The hint as a message.
    pub fn message(&self) -> (r: String)
        ensures
            r@ == hint_text(self),
    {
        let mut m = String::new();
        match self {
            PossibleMsg::DidYouMean(what) => {
                push_text(&mut m, "Did you maybe mean '");
                push_text(&mut m, what.as_str());
                push_text(&mut m, "'?");
            },
            PossibleMsg::DidYouForget(what) => {
                push_text(&mut m, "Did you maybe forget ");
                push_text(&mut m, what.as_str());
                push_text(&mut m, "?");
            },
            PossibleMsg::AllowedAre(what) => {
                push_text(&mut m, "Allowed characters are ");
                push_text(&mut m, what.as_str());
            },
            PossibleMsg::ForbiddenAre(what) => {
                push_text(&mut m, "Forbidden characters are ");
                push_text(&mut m, what.as_str());
            },
            PossibleMsg::Nothing => {},
        }
        assert(m@ =~= hint_text(self));
        m
    }
}

impl UserError {
    pub closed spec fn hint(&self) -> &PossibleMsg {
        &self.possible
    }

    /// The failure as a message: its context, its cause, and on a line of
    /// its own the hint. A lexical cause reads as its `ScanError`; a locale
    /// cause as `unic_locale` describes it.
    pub fn message(&self) -> (r: String)
        ensures
            exists|cause: Seq<char>|
                {
                    &&& r@ == context_text(self.context()@) + ": "@ + cause + "\n"@ + hint_text(
                        self.hint(),
                    )
                    &&& (self.cause() matches ParseError::LexicalError(e) ==> cause == e.text())
                },
    {
        let mut m = self.context.message();
        push_text(&mut m, ": ");
        let cause = match &self.parse_error {
            ParseError::LexicalError(e) => e.message(),
            ParseError::LocaleError(e) => locale_error_message(e),
        };
        push_text(&mut m, cause.as_str());
        push_text(&mut m, "\n");
        let hint = self.possible.message();
        push_text(&mut m, hint.as_str());
        assert(m@ =~= context_text(self.context()@) + ": "@ + cause@ + "\n"@ + hint_text(self.hint()));
        m
    }
}

/// The delimiters of placeholders.
#[derive(Copy, Clone, Debug, PartialEq, Eq)]
pub enum Terminals {
    LBrace,
    RBrace,
    Cash,
}

impl Terminals {
    /// The character of the delimiter.
    pub fn as_char(self) -> (r: char)
        ensures
            r == match self {
                Terminals::LBrace => '{',
                Terminals::RBrace => '}',
                Terminals::Cash => '$',
            },
    {
        match self {
            Terminals::LBrace => '{',
            Terminals::RBrace => '}',
            Terminals::Cash => '$',
        }
    }
}

/// A symbol that may be a terminal of the grammar.
pub trait Symbol {
    spec fn spec_is_terminal(&self) -> bool;

    fn is_terminal(&self) -> (r: bool)
        ensures
            r == self.spec_is_terminal(),
    ;

    fn is_non_terminal(&self) -> (r: bool)
        ensures
            r == !self.spec_is_terminal(),
    {
        !self.is_terminal()
    }
}

impl Symbol for char {
    open spec fn spec_is_terminal(&self) -> bool {
        is_terminal_char(*self)
    }

    fn is_terminal(&self) -> (r: bool) {
        *self == '{' || *self == '}' || *self == '$'
    }
}

/// What the scanner state says after a production: on success it moved to
/// the end of what was parsed, on failure it is unchanged.
pub open spec fn outcome<T>(
    before: &Scanner,
    after: &Scanner,
    ok: bool,
    parsed: Option<(T, int)>,
) -> bool {
    match parsed {
        Some((_, q)) => ok && after.moved_from(before, q) && q > before.position(),
        None => !ok && after.unchanged_from(before),
    }
}

// ---------------------------------------------------------------------------
// What a failed production reports as its context.

pub open spec fn key_failure(s: Seq<char>, p: int) -> Context {
    if !char_at(s, p, '{') {
        Context::OpeningOf("key"@)
    } else {
        match parse_ident(s, p + 1) {
            None => Context::ContainedIn("identifier of key"@),
            Some((_, q)) => match parse_default(s, q) {
                None => Context::ContainedIn("default for key"@),
                Some(_) => Context::ClosingOf("key"@),
            },
        }
    }
}

pub open spec fn option_failure(s: Seq<char>, p: int) -> Context {
    if !char_at(s, p, '$') {
        Context::OpeningOf("option"@)
    } else {
        Context::ContainedIn("identifier of option"@)
    }
}

pub open spec fn constant_failure(s: Seq<char>, p: int) -> Context {
    if !char_at(s, p, '$') {
        Context::OpeningOf("constant"@)
    } else {
        Context::ContainedIn("identifier of constant"@)
    }
}

/// The context an item fails with at `p`: that of the production its first
/// characters choose, or an empty input at the end of the source.
pub open spec fn item_failure(s: Seq<char>, p: int) -> Context {
    if p < 0 || p >= s.len() {
        Context::EmptyInput
    } else if s[p] == '$' {
        if char_at(s, p + 1, '{') {
            option_failure(s, p)
        } else {
            constant_failure(s, p)
        }
    } else if s[p] == '{' {
        key_failure(s, p)
    } else {
        Context::ContainedIn("text section"@)
    }
}

pub open spec fn locale_failure(s: Seq<char>, p: int) -> Context {
    let colon_at = run_end(s, p + 6, ws_pred());
    let tag_at = run_end(s, colon_at + 1, ws_pred());
    if !(0 <= p && p + 6 <= s.len() && s.subrange(p, p + 6) == locale_keyword()) {
        Context::ContainedIn("keyword locale"@)
    } else if !char_at(s, colon_at, ':') {
        Context::ContainedIn("locale setting"@)
    } else {
        match parse_chars(s, tag_at) {
            None => Context::ContainedIn("characters section"@),
            Some((tag, _)) => if !is_locale_tag(tag) {
                Context::ContainedIn("locale"@)
            } else {
                Context::ClosingOf("locale"@)
            },
        }
    }
}

// ---------------------------------------------------------------------------
// Lexical productions.

/// The character classes scanned as one lexeme.
#[derive(Copy, Clone)]
enum LexemeKind {
    Text,
    Chars,
    Ident,
    Whitespace,
}

spec fn lexeme_pred(kind: LexemeKind) -> spec_fn(char) -> bool {
    match kind {
        LexemeKind::Text => text_pred(),
        LexemeKind::Chars => chars_pred(),
        LexemeKind::Ident => ident_pred(),
        LexemeKind::Whitespace => ws_pred(),
    }
}

fn in_lexeme(kind: LexemeKind, c: char) -> (r: bool)
    ensures
        r == (lexeme_pred(kind))(c),
{
    match kind {
        LexemeKind::Text => !c.is_terminal(),
        LexemeKind::Chars => !c.is_terminal() && !is_whitespace(c),
        LexemeKind::Ident => ('A' <= c && c <= 'Z') || ('a' <= c && c <= 'z') || ('0' <= c && c
            <= '9'),
        LexemeKind::Whitespace => is_whitespace(c),
    }
}

/// Scan the longest non-empty run of characters of class `kind`, in a layer
/// of its own.
fn scan_lexeme(scanner: &mut Scanner, kind: LexemeKind) -> (r: Result<String, ScanError>)
    requires
        old(scanner).wf(),
    ensures
        final(scanner).wf(),
        outcome(
            old(scanner),
            final(scanner),
            r is Ok,
            lex_run(old(scanner).source(), old(scanner).position(), lexeme_pred(kind)),
        ),
        r is Ok ==> r->Ok_0@ == lex_run(
            old(scanner).source(),
            old(scanner).position(),
            lexeme_pred(kind),
        ).unwrap().0,
{
    let ghost s = scanner.source();
    let ghost p = scanner.position();
    let ghost a = *scanner;
    scanner.begin();
    let ghost b = *scanner;
    let callback = |c: char| -> (act: Option<Action>)
        ensures
            act == request_while(lexeme_pred(kind), c),
        {
            if in_lexeme(kind, c) {
                Some(Action::Request)
            } else {
                None
            }
        };
    let r = scanner.scan(callback);
    let ghost end = match r {
        Ok(ref t) => Some(p + t@.len()),
        Err(_) => None::<int>,
    };
    proof {
        lemma_char_run_while(s, p, char_steps(callback), lexeme_pred(kind), false, end);
    }
    let ghost c = *scanner;
    match r {
        Ok(text) => {
            scanner.commit();
            proof {
                lemma_begin_commit(&a, &b, &c, scanner, p + text@.len());
            }
            Ok(text)
        },
        Err(e) => {
            scanner.abort();
            proof {
                assert(b.layers().update(b.layers().len() - 1, p as usize) =~= b.layers());
                lemma_begin_abort(&a, &b, &c, scanner, p);
            }
            Err(e)
        },
    }
}

/// text ::= (any character but '{', '}', '$')+
pub fn text(scanner: &mut Scanner) -> (r: Result<String, UserError>)
    requires
        old(scanner).wf(),
    ensures
        final(scanner).wf(),
        outcome(
            old(scanner),
            final(scanner),
            r is Ok,
            parse_text(old(scanner).source(), old(scanner).position()),
        ),
        r is Ok ==> r->Ok_0@ == parse_text(old(scanner).source(), old(scanner).position()).unwrap().0,
        r is Err ==> r->Err_0.context()@ == Context::ContainedIn("text section"@),
{
    match scan_lexeme(scanner, LexemeKind::Text) {
        Ok(text) => Ok(text),
        Err(e) => Err(
            UserError {
                parse_error: ParseError::LexicalError(e),
                context: ContextMsg::InvalidContainedIn("text section".to_owned()),
                possible: PossibleMsg::ForbiddenAre("'{', '}' or '$'".to_owned()),
            },
        ),
    }
}

/// chars ::= (any character but '{', '}', '$' and whitespace)+
pub fn chars(scanner: &mut Scanner) -> (r: Result<String, UserError>)
    requires
        old(scanner).wf(),
    ensures
        final(scanner).wf(),
        outcome(
            old(scanner),
            final(scanner),
            r is Ok,
            parse_chars(old(scanner).source(), old(scanner).position()),
        ),
        r is Ok ==> r->Ok_0@ == parse_chars(old(scanner).source(), old(scanner).position()).unwrap().0,
        r is Err ==> r->Err_0.context()@ == Context::ContainedIn("characters section"@),
{
    match scan_lexeme(scanner, LexemeKind::Chars) {
        Ok(chars) => Ok(chars),
        Err(e) => Err(
            UserError {
                parse_error: ParseError::LexicalError(e),
                context: ContextMsg::InvalidContainedIn("characters section".to_owned()),
                possible: PossibleMsg::ForbiddenAre(
                    "'{', '}', '$' or whitespace characters".to_owned(),
                ),
            },
        ),
    }
}

/// ident ::= (ASCII letter | digit)+
pub fn ident(scanner: &mut Scanner) -> (r: Result<Ident, ParseError>)
    requires
        old(scanner).wf(),
    ensures
        final(scanner).wf(),
        outcome(
            old(scanner),
            final(scanner),
            r is Ok,
            parse_ident(old(scanner).source(), old(scanner).position()),
        ),
        r is Ok ==> r->Ok_0@ == parse_ident(old(scanner).source(), old(scanner).position()).unwrap().0,
{
    match scan_lexeme(scanner, LexemeKind::Ident) {
        Ok(ident) => Ok(ident),
        Err(e) => Err(ParseError::LexicalError(e)),
    }
}

// ---------------------------------------------------------------------------
// Placeholders.

/// The error of a production whose opening or closing symbol is missing.
fn symbol_error(e: ScanError, context: ContextMsg, hint: &str) -> (r: UserError)
    ensures
        r.context() == context,
{
    UserError {
        parse_error: ParseError::LexicalError(e),
        context,
        possible: PossibleMsg::DidYouMean(hint.to_owned()),
    }
}

/// key ::= "{" ident default? "}"
pub fn key(scanner: &mut Scanner) -> (r: Result<ContentToken, UserError>)
    requires
        old(scanner).wf(),
    ensures
        final(scanner).wf(),
        outcome(
            old(scanner),
            final(scanner),
            r is Ok,
            parse_key(old(scanner).source(), old(scanner).position()),
        ),
        r is Ok ==> r->Ok_0@ == parse_key(old(scanner).source(), old(scanner).position()).unwrap().0
            && token_wf(r->Ok_0@),
        r is Err ==> r->Err_0.context()@ == key_failure(
            old(scanner).source(),
            old(scanner).position(),
        ),
    decreases old(scanner).source().len() - old(scanner).position(), 1int,
{
    let ghost s = scanner.source();
    let ghost p = scanner.position();
    let ghost a = *scanner;
    scanner.begin();
    let ghost b = *scanner;
    if let Err(e) = scanner.take(Terminals::LBrace.as_char()) {
        let ghost c = *scanner;
        scanner.abort();
        proof {
            lemma_unchanged_moved(&b, &c);
            lemma_begin_abort(&a, &b, &c, scanner, p);
        }
        return Err(symbol_error(e, ContextMsg::InvalidOpeningOf("key".to_owned()), "{"));
    }
    let ghost c1 = *scanner;
    let ident = match ident(scanner) {
        Ok(ident) => ident,
        Err(e) => {
            let ghost c = *scanner;
            scanner.abort();
            proof {
                lemma_begin_abort(&a, &b, &c, scanner, p + 1);
            }
            return Err(
                UserError {
                    parse_error: e,
                    context: ContextMsg::InvalidContainedIn("identifier of key".to_owned()),
                    possible: PossibleMsg::AllowedAre("'A'-'Z', 'a'-'z' and '0'-'9'".to_owned()),
                },
            );
        },
    };
    let ghost q = scanner.position();
    let ghost c2 = *scanner;
    proof {
        lemma_moved_twice(&b, &c1, &c2, p + 1, q);
    }
    assert(scanner.source().len() - scanner.position() < s.len() - p);
    let default = match default(scanner) {
        Ok(default) => default,
        Err(e) => {
            let ghost c = *scanner;
            scanner.abort();
            proof {
                lemma_begin_abort(&a, &b, &c, scanner, q);
            }
            return Err(e);
        },
    };
    let ghost e = scanner.position();
    let ghost c3 = *scanner;
    proof {
        lemma_moved_twice(&b, &c2, &c3, q, e);
    }
    if let Err(err) = scanner.take(Terminals::RBrace.as_char()) {
        let ghost c = *scanner;
        scanner.abort();
        proof {
            lemma_begin_abort(&a, &b, &c, scanner, e);
        }
        return Err(symbol_error(err, ContextMsg::InvalidClosingOf("key".to_owned()), "}"));
    }
    let ghost c4 = *scanner;
    proof {
        lemma_moved_twice(&b, &c3, &c4, e, e + 1);
    }
    scanner.commit();
    proof {
        lemma_begin_commit(&a, &b, &c4, scanner, e + 1);
    }
    let default = match default {
        Some(token) => Some(Box::new(token)),
        None => None,
    };
    Ok(ContentToken::Key(ident, default))
}

/// default ::= ":" item; without the colon there is no default, which is
/// no failure.
pub fn default(scanner: &mut Scanner) -> (r: Result<Option<ContentToken>, UserError>)
    requires
        old(scanner).wf(),
    ensures
        final(scanner).wf(),
        match parse_default(old(scanner).source(), old(scanner).position()) {
            Some((d, e)) => {
                &&& r is Ok
                &&& final(scanner).moved_from(old(scanner), e)
                &&& e >= old(scanner).position()
                &&& d == match r->Ok_0 {
                    Some(t) => Some(Box::new(t@)),
                    None => None,
                }
                &&& r->Ok_0 is Some ==> token_wf(r->Ok_0->0@)
            },
            None => r is Err && final(scanner).unchanged_from(old(scanner)),
        },
        r is Err ==> r->Err_0.context()@ == Context::ContainedIn("default for key"@),
    decreases old(scanner).source().len() - old(scanner).position(), 0int,
{
    let ghost p = scanner.position();
    let ghost a = *scanner;
    scanner.begin();
    let ghost b = *scanner;
    if scanner.take(':').is_err() {
        let ghost c = *scanner;
        scanner.abort();
        proof {
            lemma_unchanged_moved(&b, &c);
            lemma_begin_abort(&a, &b, &c, scanner, p);
            lemma_unchanged_moved(&a, scanner);
        }
        return Ok(None);
    }
    let ghost c1 = *scanner;
    let token = match item(scanner) {
        Ok(token) => token,
        Err(e) => {
            let ghost c = *scanner;
            scanner.abort();
            proof {
                lemma_begin_abort(&a, &b, &c, scanner, p + 1);
            }
            let mut e = e;
            e.context = ContextMsg::InvalidContainedIn("default for key".to_owned());
            return Err(e);
        },
    };
    let ghost c2 = *scanner;
    proof {
        lemma_moved_twice(&b, &c1, &c2, p + 1, c2.position());
    }
    scanner.commit();
    proof {
        lemma_begin_commit(&a, &b, &c2, scanner, c2.position());
    }
    Ok(Some(token))
}

/// option ::= "$" key
pub fn option(scanner: &mut Scanner) -> (r: Result<ContentToken, UserError>)
    requires
        old(scanner).wf(),
    ensures
        final(scanner).wf(),
        outcome(
            old(scanner),
            final(scanner),
            r is Ok,
            parse_option(old(scanner).source(), old(scanner).position()),
        ),
        r is Ok ==> r->Ok_0@ == parse_option(old(scanner).source(), old(scanner).position()).unwrap().0
            && token_wf(r->Ok_0@),
        r is Err ==> r->Err_0.context()@ == option_failure(
            old(scanner).source(),
            old(scanner).position(),
        ),
    decreases old(scanner).source().len() - old(scanner).position(), 2int,
{
    let ghost p = scanner.position();
    let ghost a = *scanner;
    scanner.begin();
    let ghost b = *scanner;
    if let Err(e) = scanner.take(Terminals::Cash.as_char()) {
        let ghost c = *scanner;
        scanner.abort();
        proof {
            lemma_unchanged_moved(&b, &c);
            lemma_begin_abort(&a, &b, &c, scanner, p);
        }
        return Err(symbol_error(e, ContextMsg::InvalidOpeningOf("option".to_owned()), "$"));
    }
    let ghost c1 = *scanner;
    let key = match key(scanner) {
        Ok(key) => key,
        Err(e) => {
            let ghost c = *scanner;
            scanner.abort();
            proof {
                lemma_begin_abort(&a, &b, &c, scanner, p + 1);
            }
            let mut e = e;
            e.context = ContextMsg::InvalidContainedIn("identifier of option".to_owned());
            return Err(e);
        },
    };
    let ghost c2 = *scanner;
    proof {
        lemma_moved_twice(&b, &c1, &c2, p + 1, c2.position());
    }
    scanner.commit();
    proof {
        lemma_begin_commit(&a, &b, &c2, scanner, c2.position());
    }
    Ok(ContentToken::Option(Box::new(key)))
}

/// constant ::= "$" ident
pub fn constant(scanner: &mut Scanner) -> (r: Result<ContentToken, UserError>)
    requires
        old(scanner).wf(),
    ensures
        final(scanner).wf(),
        outcome(
            old(scanner),
            final(scanner),
            r is Ok,
            parse_constant(old(scanner).source(), old(scanner).position()),
        ),
        r is Ok ==> r->Ok_0@ == parse_constant(old(scanner).source(), old(scanner).position()).unwrap().0
            && token_wf(r->Ok_0@),
        r is Err ==> r->Err_0.context()@ == constant_failure(
            old(scanner).source(),
            old(scanner).position(),
        ),

{
    let ghost p = scanner.position();
    let ghost a = *scanner;
    scanner.begin();
    let ghost b = *scanner;
    if let Err(e) = scanner.take(Terminals::Cash.as_char()) {
        let ghost c = *scanner;
        scanner.abort();
        proof {
            lemma_unchanged_moved(&b, &c);
            lemma_begin_abort(&a, &b, &c, scanner, p);
        }
        return Err(symbol_error(e, ContextMsg::InvalidOpeningOf("constant".to_owned()), "$"));
    }
    let ghost c1 = *scanner;
    let ident = match ident(scanner) {
        Ok(ident) => ident,
        Err(e) => {
            let ghost c = *scanner;
            scanner.abort();
            proof {
                lemma_begin_abort(&a, &b, &c, scanner, p + 1);
            }
            return Err(
                UserError {
                    parse_error: e,
                    context: ContextMsg::InvalidContainedIn("identifier of constant".to_owned()),
                    possible: PossibleMsg::AllowedAre("'A'-'Z', 'a'-'z' and '0'-'9'".to_owned()),
                },
            );
        },
    };
    let ghost c2 = *scanner;
    proof {
        lemma_moved_twice(&b, &c1, &c2, p + 1, c2.position());
    }
    scanner.commit();
    proof {
        lemma_begin_commit(&a, &b, &c2, scanner, c2.position());
    }
    Ok(ContentToken::Constant(ident))
}

/// What the lookahead of `item` asks for after seeing `seen`: a lone `$`
/// must be followed by `{` to be taken further; anything else ends it.
pub open spec fn item_action(seen: Seq<char>) -> Option<Action> {
    if seen == seq!['$'] {
        Some(Action::Require('{'))
    } else {
        Some(Action::Return)
    }
}

/// Where the lookahead of `item` ends: after `${`, after any other first
/// character, or nowhere at the end of the source.
pub open spec fn lookahead_end(s: Seq<char>, p: int) -> Option<int> {
    if p >= s.len() {
        None
    } else if s[p] == '$' && char_at(s, p + 1, '{') {
        Some(p + 2)
    } else {
        Some(p + 1)
    }
}

proof fn lemma_item_lookahead(
    s: Seq<char>,
    p: int,
    step: spec_fn(Seq<char>, Option<Action>) -> bool,
    end: Option<int>,
)
    requires
        0 <= p <= s.len(),
        forall|q: Seq<char>, a: Option<Action>| #[trigger] step(q, a) ==> a == item_action(q),
        seq_run(s, p, p, step, false, None, end),
    ensures
        end == lookahead_end(s, p),
{
    if p < s.len() {
        let first = s.subrange(p, p + 1);
        assert(first =~= seq![s[p]]);
        let a = choose|a: Option<Action>|
            #[trigger] step(first, a) && match a {
                None => end == None::<int>,
                Some(Action::Return) => end == Some(p + 1),
                Some(Action::Request) => seq_run(s, p, p + 1, step, true, None, end),
                Some(Action::Require(c)) => seq_run(s, p, p + 1, step, true, Some(c), end),
            };
        assert(a == item_action(first));
        if s[p] == '$' {
            assert(a == Some(Action::Require('{')));
            if p + 1 < s.len() && s[p + 1] == '{' {
                let both = s.subrange(p, p + 2);
                assert(both.len() == 2);
                assert(both != seq!['$']);
                let a2 = choose|a2: Option<Action>|
                    #[trigger] step(both, a2) && match a2 {
                        None => end == Some(p + 1),
                        Some(Action::Return) => end == Some(p + 2),
                        Some(Action::Request) => seq_run(s, p, p + 2, step, true, None, end),
                        Some(Action::Require(c)) => seq_run(s, p, p + 2, step, true, Some(c), end),
                    };
                assert(a2 == item_action(both));
            }
        } else {
            if first == seq!['$'] {
                assert(first[0] == '$');
            }
        }
    }
}

/// item ::= option | constant | key | text, chosen by looking ahead at the
/// first characters without consuming them.
pub fn item(scanner: &mut Scanner) -> (r: Result<ContentToken, UserError>)
    requires
        old(scanner).wf(),
    ensures
        final(scanner).wf(),
        outcome(
            old(scanner),
            final(scanner),
            r is Ok,
            parse_item(old(scanner).source(), old(scanner).position()),
        ),
        r is Ok ==> r->Ok_0@ == parse_item(old(scanner).source(), old(scanner).position()).unwrap().0
            && token_wf(r->Ok_0@),
        r is Err ==> r->Err_0.context()@ == item_failure(
            old(scanner).source(),
            old(scanner).position(),
        ),
    decreases old(scanner).source().len() - old(scanner).position(), 3int,
{
    let ghost s = scanner.source();
    let ghost p = scanner.position();
    let ghost a = *scanner;
    scanner.begin();
    let ghost b = *scanner;
    let callback = |seen: &str| -> (act: Option<Action>)
        ensures
            act == item_action(seen@),
        {
            if seen.unicode_len() == 1 && seen.get_char(0) == '$' {
                assert(seen@ =~= seq!['$']);
                Some(Action::Require('{'))
            } else {
                Some(Action::Return)
            }
        };
    let sequence = scanner.scan_seq(callback);
    let ghost end = match sequence {
        Ok(ref t) => Some(p + t@.len()),
        Err(_) => None::<int>,
    };
    proof {
        lemma_item_lookahead(s, p, seq_steps(callback), end);
    }
    let ghost c = *scanner;
    scanner.abort();
    proof {
        if sequence is Err {
            lemma_unchanged_moved(&b, &c);
        }
        lemma_begin_abort(&a, &b, &c, scanner, end.unwrap_or(p));
    }
    let ghost d = *scanner;
    match sequence {
        Ok(sequence) => {
            let seen = sequence.as_str();
            proof {
                assert(seen@ == s.subrange(p, end.unwrap()));
            }
            if seen.unicode_len() == 2 {
                option(scanner)
            } else if seen.get_char(0) == '$' {
                constant(scanner)
            } else if seen.get_char(0) == '{' {
                key(scanner)
            } else {
                match text(scanner) {
                    Ok(text) => Ok(ContentToken::Text(text)),
                    Err(e) => Err(e),
                }
            }
        },
        Err(e) => Err(
            UserError {
                parse_error: ParseError::LexicalError(e),
                context: ContextMsg::EmptyInput,
                possible: PossibleMsg::Nothing,
            },
        ),
    }
}

// ---------------------------------------------------------------------------
// Templates.

/// Skip any whitespace.
fn skip_whitespace(scanner: &mut Scanner)
    requires
        old(scanner).wf(),
    ensures
        final(scanner).wf(),
        final(scanner).moved_from(
            old(scanner),
            run_end(old(scanner).source(), old(scanner).position(), ws_pred()),
        ),
        final(scanner).position() >= old(scanner).position(),
{
    proof {
        lemma_run_end(scanner.source(), scanner.position(), ws_pred());
    }
    let ghost a = *scanner;
    if scan_lexeme(scanner, LexemeKind::Whitespace).is_err() {
        proof {
            lemma_unchanged_moved(&a, scanner);
        }
    }
}

proof fn lemma_matched_all(s: Seq<char>, p: int, t: Seq<char>, i: int)
    requires
        0 <= p <= s.len(),
        0 <= i <= t.len(),
        matched_len(s, p, t, i) == t.len(),
        forall|j: int| 0 <= j < i ==> 0 <= p + j < s.len() && s[p + j] == t[j],
    ensures
        p + t.len() <= s.len(),
        s.subrange(p, p + t.len()) == t,
    decreases t.len() - i,
{
    if i < t.len() {
        assert(0 <= p + i < s.len() && s[p + i] == t[i]);
        lemma_matched_all(s, p, t, i + 1);
    } else {
        if t.len() > 0 {
            assert(s[p + (t.len() - 1)] == t[t.len() - 1]);
        }
        assert(s.subrange(p, p + t.len()) =~= t);
    }
}

proof fn lemma_keyword_mismatch(s: Seq<char>, p: int, t: Seq<char>, i: int)
    requires
        0 <= p,
        0 <= i <= t.len(),
        matched_len(s, p, t, i) != t.len(),
        forall|j: int| 0 <= j < i ==> 0 <= p + j < s.len() && s[p + j] == t[j],
    ensures
        !(p + t.len() <= s.len() && s.subrange(p, p + t.len()) == t),
    decreases t.len() - i,
{
    if i < t.len() && 0 <= p + i < s.len() && s[p + i] == t[i] {
        lemma_keyword_mismatch(s, p, t, i + 1);
    } else if p + t.len() <= s.len() && s.subrange(p, p + t.len()) == t {
        assert(s.subrange(p, p + t.len())[i] == s[p + i]);
    }
}

/// locale ::= "locale" ws? ":" ws? chars "\n", where `chars` must be a
/// locale tag.
pub fn locale(scanner: &mut Scanner) -> (r: Result<Locale, UserError>)
    requires
        old(scanner).wf(),
    ensures
        final(scanner).wf(),
        outcome(
            old(scanner),
            final(scanner),
            r is Ok,
            parse_locale(old(scanner).source(), old(scanner).position()),
        ),
        r is Err ==> r->Err_0.context()@ == locale_failure(
            old(scanner).source(),
            old(scanner).position(),
        ),

{
    let ghost s = scanner.source();
    let ghost p = scanner.position();
    let ghost a = *scanner;
    scanner.begin();
    let ghost b = *scanner;
    let taken = scanner.take_str("locale");
    proof {
        reveal_strlit("locale");
        assert("locale"@ =~= locale_keyword());
    }
    if let Err(e) = taken {
        let ghost c = *scanner;
        scanner.abort();
        proof {
            lemma_keyword_mismatch(s, p, locale_keyword(), 0);
            lemma_begin_abort(&a, &b, &c, scanner, c.position());
        }
        return Err(
            UserError {
                parse_error: ParseError::LexicalError(e),
                context: ContextMsg::InvalidContainedIn("keyword locale".to_owned()),
                possible: PossibleMsg::DidYouMean("locale".to_owned()),
            },
        );
    }
    proof {
        lemma_matched_all(s, p, locale_keyword(), 0);
    }
    let ghost c1 = *scanner;
    skip_whitespace(scanner);
    let ghost c2 = *scanner;
    proof {
        lemma_moved_twice(&b, &c1, &c2, p + 6, c2.position());
    }
    if let Err(e) = scanner.take(':') {
        let ghost c = *scanner;
        scanner.abort();
        proof {
            lemma_begin_abort(&a, &b, &c, scanner, c.position());
        }
        return Err(
            UserError {
                parse_error: ParseError::LexicalError(e),
                context: ContextMsg::InvalidContainedIn("locale setting".to_owned()),
                possible: PossibleMsg::DidYouForget(
                    "to add a colon between the locale keyword and literal".to_owned(),
                ),
            },
        );
    }
    let ghost c3 = *scanner;
    proof {
        lemma_moved_twice(&b, &c2, &c3, c2.position(), c3.position());
    }
    skip_whitespace(scanner);
    let ghost c4 = *scanner;
    proof {
        lemma_moved_twice(&b, &c3, &c4, c3.position(), c4.position());
    }
    let input = match chars(scanner) {
        Ok(chars) => chars,
        Err(e) => {
            let ghost c = *scanner;
            scanner.abort();
            proof {
                lemma_begin_abort(&a, &b, &c, scanner, c.position());
            }
            return Err(e);
        },
    };
    let ghost c5 = *scanner;
    proof {
        lemma_moved_twice(&b, &c4, &c5, c4.position(), c5.position());
    }
    let locale = match parse_locale_tag(input.as_str()) {
        Ok(locale) => locale,
        Err(e) => {
            scanner.abort();
            proof {
                lemma_begin_abort(&a, &b, &c5, scanner, c5.position());
            }
            return Err(
                UserError {
                    parse_error: ParseError::LocaleError(e),
                    context: ContextMsg::InvalidContainedIn("locale".to_owned()),
                    possible: PossibleMsg::Nothing,
                },
            );
        },
    };
    if let Err(e) = scanner.take('\n') {
        let ghost c = *scanner;
        scanner.abort();
        proof {
            lemma_begin_abort(&a, &b, &c, scanner, c.position());
        }
        return Err(
            UserError {
                parse_error: ParseError::LexicalError(e),
                context: ContextMsg::InvalidClosingOf("locale".to_owned()),
                possible: PossibleMsg::DidYouForget("a new line after the locale".to_owned()),
            },
        );
    }
    let ghost c6 = *scanner;
    proof {
        lemma_moved_twice(&b, &c5, &c6, c5.position(), c6.position());
    }
    scanner.commit();
    proof {
        lemma_begin_commit(&a, &b, &c6, scanner, c6.position());
        assert(c1.position() == p + 6);
        assert(s.subrange(p, p + 6) == locale_keyword());
        assert(c2.position() == run_end(s, p + 6, ws_pred()));
        assert(char_at(s, c2.position(), ':'));
        assert(c4.position() == run_end(s, c2.position() + 1, ws_pred()));
        assert(parse_chars(s, c4.position()) == Some((input@, c5.position())));
        assert(char_at(s, c5.position(), '\n'));
        assert(parse_locale(s, p) == Some((input@, c5.position() + 1)));
    }
    Ok(locale)
}

/// template ::= locale? item+
///
/// A malformed locale directive is no failure: the default locale is used
/// and the problem is kept as a friendly diagnostic. The template fails if
/// no item parses or if anything is left after the items.
pub fn template(scanner: &mut Scanner) -> (r: Result<ContentTokens, UserError>)
    requires
        old(scanner).wf(),
    ensures
        final(scanner).wf(),
        match parse_template(old(scanner).source(), old(scanner).position()) {
            Some(ts) => {
                &&& r is Ok
                &&& r->Ok_0.tokens() == ts
                &&& r->Ok_0.wf()
                &&& r->Ok_0.friendly_count() == (if parse_locale(
                    old(scanner).source(),
                    old(scanner).position(),
                ) is Some {
                    0nat
                } else {
                    1nat
                })
                &&& final(scanner).position() == old(scanner).source().len()
            },
            None => r is Err,
        },
        r is Err ==> r->Err_0.context()@ == item_failure(
            old(scanner).source(),
            parse_items(
                old(scanner).source(),
                items_start(old(scanner).source(), old(scanner).position()),
            ).1,
        ),

{
    let ghost s = scanner.source();
    let ghost p = scanner.position();
    let mut tokens = match locale(scanner) {
        Ok(locale) => ContentTokens::from(locale),
        Err(e) => {
            let mut tokens = ContentTokens::new();
            tokens.add_friendly(e);
            tokens
        },
    };
    let ghost start = scanner.position();
    let ghost friendly = tokens.friendly_count();
    assert(start == items_start(s, p));
    let mut done = false;
    let mut error: Option<UserError> = None;
    proof {
        assert(tokens.tokens() + parse_items(s, start).0 =~= parse_items(s, start).0);
    }
    while !done
        invariant
            scanner.wf(),
            scanner.source() == s,
            tokens.wf(),
            tokens.friendly_count() == friendly,
            done ==> error is Some,
            done ==> error->0.context()@ == item_failure(s, parse_items(s, start).1),
            done ==> tokens.tokens() == parse_items(s, start).0 && scanner.position() == parse_items(
                s,
                start,
            ).1,
            !done ==> tokens.tokens() + parse_items(s, scanner.position()).0 == parse_items(
                s,
                start,
            ).0,
            !done ==> parse_items(s, scanner.position()).1 == parse_items(s, start).1,
        decreases s.len() - scanner.position() + (if done {
            0int
        } else {
            1int
        }),
    {
        let ghost pos = scanner.position();
        match item(scanner) {
            Ok(token) => {
                let ghost q = scanner.position();
                proof {
                    let (rest, e) = parse_items(s, q);
                    assert(parse_items(s, pos) == (seq![token@] + rest, e));
                    assert(tokens.tokens().push(token@) + rest =~= tokens.tokens() + (seq![
                        token@,
                    ] + rest));
                }
                tokens.push(token);
            },
            Err(e) => {
                proof {
                    assert(tokens.tokens() =~= tokens.tokens() + parse_items(s, pos).0);
                }
                error = Some(e);
                done = true;
            },
        }
    }
    if tokens.len() > 0 && scanner.at_end() {
        Ok(tokens)
    } else {
        Err(error.unwrap())
    }
}

} // verus!
