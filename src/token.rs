//! Parsed templates: the token tree and the token sequence with its locale.

use crate::locale::default_locale;
use crate::parse::UserError;
use unic_locale::Locale;
use vstd::prelude::*;

verus! {

pub type Ident = String;

/// A node of a parsed template.
#[derive(Debug, PartialEq)]
pub enum ContentToken {
    /// Literal text, emitted verbatim.
    Text(String),
    /// A key supplied by the user, with an optional default.
    Key(Ident, Option<Box<ContentToken>>),
    /// A constant of the fixed configuration.
    Constant(Ident),
    /// An option whose choice the user makes; it always wraps a `Key`.
    Option(Box<ContentToken>),
}

/// The mathematical model of a `ContentToken`.
pub enum Token {
    Text(Seq<char>),
    Key(Seq<char>, Option<Box<Token>>),
    Constant(Seq<char>),
    Option(Box<Token>),
}

pub open spec fn token_model(t: &ContentToken) -> Token
    decreases t,
{
    match t {
        ContentToken::Text(text) => Token::Text(text@),
        ContentToken::Key(ident, default) => Token::Key(
            ident@,
            match default {
                Some(d) => Some(Box::new(token_model(&**d))),
                None => None,
            },
        ),
        ContentToken::Constant(ident) => Token::Constant(ident@),
        ContentToken::Option(key) => Token::Option(Box::new(token_model(&**key))),
    }
}

impl View for ContentToken {
    type V = Token;

    open spec fn view(&self) -> Token {
        token_model(self)
    }
}

/// Every `Option` node wraps a `Key` node, all the way down.
pub open spec fn token_wf(t: Token) -> bool
    decreases t,
{
    match t {
        Token::Key(_, Some(d)) => token_wf(*d),
        Token::Option(k) => (*k is Key) && token_wf(*k),
        _ => true,
    }
}

/// The tokens of a template in rendering order, its locale, and the
/// non-fatal diagnostics collected while parsing it.
#[derive(Debug)]
pub struct ContentTokens {
    tokens: Vec<ContentToken>,
    pub locale: Locale,
    friendly_errors: Vec<UserError>,
}

impl ContentTokens {
    pub closed spec fn tokens(&self) -> Seq<Token> {
        self.tokens@.map_values(|t: ContentToken| t@)
    }

    pub closed spec fn locale_spec(&self) -> Locale {
        self.locale
    }

    pub closed spec fn friendly_count(&self) -> nat {
        self.friendly_errors@.len()
    }

    pub open spec fn wf(&self) -> bool {
        forall|i: int| 0 <= i < self.tokens().len() ==> token_wf(#[trigger] self.tokens()[i])
    }

    /// No tokens, the default locale `en-US`.
    pub fn new() -> (r: Self)
        ensures
            r.tokens() == Seq::<Token>::empty(),
            r.friendly_count() == 0,
            r.wf(),
    {
        let r = ContentTokens { tokens: Vec::new(), locale: default_locale(), friendly_errors: Vec::new() };
        assert(r.tokens() =~= Seq::<Token>::empty());
        r
    }

    /// No tokens, the given locale.
    pub fn from(locale: Locale) -> (r: Self)
        ensures
            r.tokens() == Seq::<Token>::empty(),
            r.friendly_count() == 0,
            r.locale_spec() == locale,
            r.wf(),
    {
        let r = ContentTokens { tokens: Vec::new(), locale, friendly_errors: Vec::new() };
        assert(r.tokens() =~= Seq::<Token>::empty());
        r
    }

    /// Record a non-fatal diagnostic.
    pub fn add_friendly(&mut self, e: UserError)
        ensures
            final(self).tokens() == old(self).tokens(),
            final(self).locale_spec() == old(self).locale_spec(),
            final(self).friendly_count() == old(self).friendly_count() + 1,
    {
        self.friendly_errors.push(e);
        assert(final(self).tokens() =~= old(self).tokens());
    }

    /// Append a token.
    pub fn push(&mut self, token: ContentToken)
        requires
            old(self).wf(),
            token_wf(token@),
        ensures
            final(self).tokens() == old(self).tokens().push(token@),
            final(self).locale_spec() == old(self).locale_spec(),
            final(self).friendly_count() == old(self).friendly_count(),
            final(self).wf(),
    {
        self.tokens.push(token);
        assert(final(self).tokens() =~= old(self).tokens().push(token@));
    }

    /// The number of tokens.
    pub fn len(&self) -> (r: usize)
        ensures
            r == self.tokens().len(),
    {
        self.tokens.len()
    }

    pub fn tokens_ref(&self) -> (r: &Vec<ContentToken>)
        ensures
            r@.map_values(|t: ContentToken| t@) == self.tokens(),
    {
        &self.tokens
    }

    pub fn locale_ref(&self) -> (r: &Locale)
        ensures
            *r == self.locale_spec(),
    {
        &self.locale
    }
}

} // verus!
