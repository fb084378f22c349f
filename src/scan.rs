//! A transactional character scanner.
//!
//! The scanner keeps a stack of cursor positions ("virtual layers"). A rule
//! that might fail opens a layer with `begin`, keeps its progress with
//! `commit`, or drops it with `abort`, which restores the position the rule
//! started from.

use crate::chars::{decimal, push_char, push_decimal, push_text};
use vstd::prelude::*;

verus! {

/// What a scanning callback asks for after being shown a character.
#[derive(Debug, Clone, Copy, PartialEq, Eq)]
pub enum Action {
    /// Accept the character and go on; the run still succeeds if the next step fails.
    Request,
    /// Accept the character and end the run.
    Return,
    /// Accept the character; the run only goes on if the next character is the given one.
    Require(char),
}

/// Positions are non-decreasing from the bottom layer to the top one.
pub open spec fn layers_ordered(layers: Seq<usize>) -> bool {
    forall|i: int, j: int| 0 <= i <= j < layers.len() ==> layers[i] <= layers[j]
}

/// The position of the layer below the top one, or the top one if it is alone.
pub open spec fn base_of(layers: Seq<usize>) -> usize {
    if layers.len() > 1 {
        layers[layers.len() - 2]
    } else {
        layers.last()
    }
}

/// The layers after the top one has been dropped, keeping at least one.
pub open spec fn dropped(layers: Seq<usize>) -> Seq<usize> {
    if layers.len() > 1 {
        layers.drop_last()
    } else {
        layers
    }
}

/// The layers after the top one has been merged into the one below it.
pub open spec fn merged(layers: Seq<usize>) -> Seq<usize> {
    if layers.len() > 1 {
        layers.drop_last().update(layers.len() - 2, layers.last())
    } else {
        layers
    }
}

/// Line and column (both counted from 1) of position `pos` in `s`.
pub open spec fn line_col(s: Seq<char>, pos: int) -> (nat, nat)
    decreases pos,
{
    if pos <= 0 {
        (1, 1)
    } else {
        let (line, col) = line_col(s, pos - 1);
        if s[pos - 1] == '\n' {
            (line + 1, 1)
        } else {
            (line, col + 1)
        }
    }
}

proof fn lemma_line_col_bound(s: Seq<char>, pos: int)
    requires
        0 <= pos,
    ensures
        line_col(s, pos).0 + line_col(s, pos).1 <= pos + 2,
        line_col(s, pos).0 >= 1,
        line_col(s, pos).1 >= 1,
    decreases pos,
{
    if pos > 0 {
        lemma_line_col_bound(s, pos - 1);
    }
}

/// Line and column of position `pos` in `chars`.
fn position_as_lines(chars: &Vec<char>, pos: usize) -> (r: (usize, usize))
    requires
        pos <= chars@.len(),
        pos < usize::MAX,
    ensures
        r.0 == line_col(chars@, pos as int).0,
        r.1 == line_col(chars@, pos as int).1,
{
    let mut line: usize = 1;
    let mut column: usize = 1;
    let mut i: usize = 0;
    while i < pos
        invariant
            i <= pos <= chars@.len(),
            pos < usize::MAX,
            line == line_col(chars@, i as int).0,
            column == line_col(chars@, i as int).1,
        decreases pos - i,
    {
        proof {
            lemma_line_col_bound(chars@, i as int);
        }
        if chars[i] == '\n' {
            line = line + 1;
            column = 1;
        } else {
            column = column + 1;
        }
        i = i + 1;
    }
    (line, column)
}

/// Where a scan failed: the active position, the position of the layer
/// below it, and the active position as line and column.
#[derive(Debug, Clone, Copy, PartialEq, Eq)]
pub struct ErrorPosition {
    active: usize,
    base: usize,
    lines: (usize, usize),
}

impl ErrorPosition {
    #[verifier::type_invariant]
    spec fn base_not_after_active(self) -> bool {
        self.base <= self.active
    }

    pub closed spec fn active(self) -> nat {
        self.active as nat
    }

    pub closed spec fn base(self) -> nat {
        self.base as nat
    }

    pub closed spec fn lines(self) -> (nat, nat) {
        (self.lines.0 as nat, self.lines.1 as nat)
    }

    /// The error position for the given layers over `s`.
    pub open spec fn describes(self, s: Seq<char>, layers: Seq<usize>) -> bool {
        &&& self.active() == layers.last()
        &&& self.base() == base_of(layers)
        &&& self.lines() == line_col(s, layers.last() as int)
    }
}

/// How a position reads in messages: its column alone on the first line.
pub open spec fn position_text(lines: (nat, nat)) -> Seq<char> {
    if lines.0 == 1 {
        "column "@ + decimal(lines.1)
    } else {
        "line "@ + decimal(lines.0) + ", column "@ + decimal(lines.1)
    }
}

impl ErrorPosition {
    /// The position as a message reads it.
    pub fn message(&self) -> (r: String)
        ensures
            r@ == position_text(self.lines()),
    {
        let mut m = String::new();
        if self.lines.0 == 1 {
            push_text(&mut m, "column ");
            push_decimal(&mut m, self.lines.1);
        } else {
            push_text(&mut m, "line ");
            push_decimal(&mut m, self.lines.0);
            push_text(&mut m, ", column ");
            push_decimal(&mut m, self.lines.1);
        }
        assert(m@ =~= position_text(self.lines()));
        m
    }
}

/// A character that no rule accepted.
#[derive(Debug, Clone, Copy, PartialEq, Eq)]
pub struct UnexpectedSymbol {
    found: char,
    expected: Option<char>,
    position: ErrorPosition,
}

impl UnexpectedSymbol {
    pub closed spec fn found(self) -> char {
        self.found
    }

    pub closed spec fn expected(self) -> Option<char> {
        self.expected
    }

    pub closed spec fn position(self) -> ErrorPosition {
        self.position
    }
}

/// How an unexpected symbol reads in messages.
pub open spec fn symbol_text(symbol: UnexpectedSymbol) -> Seq<char> {
    let at = "'"@ + seq![symbol.found()] + "' at "@ + position_text(symbol.position().lines());
    match symbol.expected() {
        Some(e) => at + " (expected '"@ + seq![e] + "')"@,
        None => at,
    }
}

impl UnexpectedSymbol {
    /// The symbol, where it was found, and what was expected there.
    pub fn message(&self) -> (r: String)
        ensures
            r@ == symbol_text(*self),
    {
        let mut m = String::new();
        push_text(&mut m, "'");
        push_char(&mut m, self.found);
        push_text(&mut m, "' at ");
        let position = self.position.message();
        push_text(&mut m, position.as_str());
        if let Some(e) = self.expected {
            push_text(&mut m, " (expected '");
            push_char(&mut m, e);
            push_text(&mut m, "')");
        }
        assert(m@ =~= symbol_text(*self));
        m
    }
}

/// A lexical failure.
#[derive(Debug, Clone, Copy, PartialEq, Eq)]
pub enum ScanError {
    UnexpectedSymbol(UnexpectedSymbol),
    UnexpectedEndOfInput(ErrorPosition),
}

impl ScanError {
    pub open spec fn position(self) -> ErrorPosition {
        match self {
            ScanError::UnexpectedSymbol(symbol) => symbol.position(),
            ScanError::UnexpectedEndOfInput(position) => position,
        }
    }

    /// How this failure reads in messages.
    pub open spec fn text(self) -> Seq<char> {
        match self {
            ScanError::UnexpectedSymbol(symbol) => symbol_text(symbol),
            ScanError::UnexpectedEndOfInput(position) => "Unexpected end of input reached at position "@
                + position_text(position.lines()),
        }
    }

    /// The failure as a message.
    pub fn message(&self) -> (r: String)
        ensures
            r@ == self.text(),
    {
        match self {
            ScanError::UnexpectedSymbol(symbol) => symbol.message(),
            ScanError::UnexpectedEndOfInput(position) => {
                let mut m = String::new();
                push_text(&mut m, "Unexpected end of input reached at position ");
                let at = position.message();
                push_text(&mut m, at.as_str());
                m
            },
        }
    }

    /// How far the active layer had advanced past the layer below it when
    /// the error was raised.
    pub fn failed_after(&self) -> (r: usize)
        ensures
            r == self.position().active() - self.position().base(),
    {
        let err_pos = match self {
            ScanError::UnexpectedSymbol(symbol) => symbol.position,
            ScanError::UnexpectedEndOfInput(position) => *position,
        };
        proof {
            use_type_invariant(&err_pos);
        }
        err_pos.active - err_pos.base
    }
}

/// A stack of cursor positions that always holds at least one layer.
#[derive(Debug)]
pub struct Cursor(Vec<usize>);

impl Cursor {
    pub closed spec fn layers(&self) -> Seq<usize> {
        self.0@
    }

    pub open spec fn wf(&self) -> bool {
        &&& self.layers().len() > 0
        &&& layers_ordered(self.layers())
    }

    /// A cursor with one layer at position zero.
    pub fn new() -> (r: Self)
        ensures
            r.layers() == seq![0usize],
            r.wf(),
    {
        Cursor(vec![0])
    }

    /// Add a new active layer at the current position.
    pub fn add(&mut self)
        requires
            old(self).wf(),
        ensures
            final(self).layers() == old(self).layers().push(old(self).layers().last()),
            final(self).wf(),
    {
        let current = self.0[self.0.len() - 1];
        self.0.push(current);
    }

    /// Drop the active layer and move the layer below it to its position.
    pub fn merge(&mut self)
        requires
            old(self).wf(),
        ensures
            final(self).layers() == merged(old(self).layers()),
            final(self).wf(),
    {
        if self.0.len() > 1 {
            let current = self.0.pop().unwrap();
            let below = self.0.len() - 1;
            self.0.set(below, current);
        }
    }

    /// Drop the active layer (unless it is the only one) and describe where
    /// it stood.
    pub fn collapse(&mut self, s: &Vec<char>) -> (r: ErrorPosition)
        requires
            old(self).wf(),
            old(self).layers().last() <= s@.len(),
            s@.len() < usize::MAX,
        ensures
            final(self).layers() == dropped(old(self).layers()),
            final(self).wf(),
            r.describes(s@, old(self).layers()),
    {
        let r = self.describe(s);
        if self.0.len() > 1 {
            self.0.pop();
        }
        r
    }

    /// Describe the active layer without changing the cursor.
    pub fn describe(&self, s: &Vec<char>) -> (r: ErrorPosition)
        requires
            self.wf(),
            self.layers().last() <= s@.len(),
            s@.len() < usize::MAX,
        ensures
            r.describes(s@, self.layers()),
    {
        let n = self.0.len();
        let active = self.0[n - 1];
        let base = if n > 1 {
            self.0[n - 2]
        } else {
            active
        };
        ErrorPosition { active, base, lines: position_as_lines(s, active) }
    }

    /// The position of the active layer.
    pub fn at(&self) -> (r: usize)
        requires
            self.wf(),
        ensures
            r == self.layers().last(),
    {
        self.0[self.0.len() - 1]
    }

    /// Advance the active layer by one.
    pub fn inc(&mut self)
        requires
            old(self).wf(),
            old(self).layers().last() < usize::MAX,
        ensures
            final(self).layers() == old(self).layers().update(
                old(self).layers().len() - 1,
                (old(self).layers().last() + 1) as usize,
            ),
            final(self).wf(),
    {
        let last = self.0.len() - 1;
        let current = self.0[last];
        self.0.set(last, current + 1);
    }
}

/// The outcome of a run that starts at `p` and is driven by `step`, which
/// relates each character shown to the callback to the action it returned.
/// `accepted` says whether a character has been accepted already, `pending`
/// holds the character that a `Require` asked for; `end` is where the run
/// stops, or `None` where it fails.
pub open spec fn char_run(
    s: Seq<char>,
    p: int,
    step: spec_fn(char, Option<Action>) -> bool,
    accepted: bool,
    pending: Option<char>,
    end: Option<int>,
) -> bool
    decreases s.len() - p,
{
    if p < 0 || p >= s.len() {
        end == (if accepted {
            Some(p)
        } else {
            None::<int>
        })
    } else if pending is Some && s[p] != pending->0 {
        end == Some(p)
    } else {
        exists|a: Option<Action>|
            #[trigger] step(s[p], a) && match a {
                None => end == (if accepted {
                    Some(p)
                } else {
                    None::<int>
                }),
                Some(Action::Return) => end == Some(p + 1),
                Some(Action::Request) => char_run(s, p + 1, step, true, None, end),
                Some(Action::Require(c)) => char_run(s, p + 1, step, true, Some(c), end),
            }
    }
}

/// As `char_run`, but the callback is shown the whole sequence from `start`
/// up to and including the current character.
pub open spec fn seq_run(
    s: Seq<char>,
    start: int,
    p: int,
    step: spec_fn(Seq<char>, Option<Action>) -> bool,
    accepted: bool,
    pending: Option<char>,
    end: Option<int>,
) -> bool
    decreases s.len() - p,
{
    if p < 0 || p >= s.len() {
        end == (if accepted {
            Some(p)
        } else {
            None::<int>
        })
    } else if pending is Some && s[p] != pending->0 {
        end == Some(p)
    } else {
        exists|a: Option<Action>|
            #[trigger] step(s.subrange(start, p + 1), a) && match a {
                None => end == (if accepted {
                    Some(p)
                } else {
                    None::<int>
                }),
                Some(Action::Return) => end == Some(p + 1),
                Some(Action::Request) => seq_run(s, start, p + 1, step, true, None, end),
                Some(Action::Require(c)) => seq_run(s, start, p + 1, step, true, Some(c), end),
            }
    }
}

/// The steps that a character callback may take: `f` may return `a` for `c`.
pub open spec fn char_steps<F: Fn(char) -> Option<Action>>(f: F) -> spec_fn(
    char,
    Option<Action>,
) -> bool {
    |c: char, a: Option<Action>| f.ensures((c,), a)
}

/// The steps that a sequence callback may take: `f` may return `a` when shown `q`.
pub open spec fn seq_steps<F: Fn(&str) -> Option<Action>>(f: F) -> spec_fn(
    Seq<char>,
    Option<Action>,
) -> bool {
    |q: Seq<char>, a: Option<Action>| exists|t: &str| t@ == q && #[trigger] f.ensures((t,), a)
}

impl Scanner {
    /// Same source and same layers as `before`.
    pub open spec fn unchanged_from(&self, before: &Scanner) -> bool {
        &&& self.source() == before.source()
        &&& self.layers() == before.layers()
    }
}

/// A layer opened at `a`, moved to `q`, and committed, moves `a` to `q`.
pub proof fn lemma_begin_commit(a: &Scanner, b: &Scanner, c: &Scanner, d: &Scanner, q: int)
    requires
        a.layers().len() > 0,
        b.source() == a.source(),
        b.layers() == a.layers().push(a.layers().last()),
        c.moved_from(b, q),
        d.source() == c.source(),
        d.layers() == merged(c.layers()),
    ensures
        d.moved_from(a, q),
{
    assert(d.layers() =~= a.layers().update(a.layers().len() - 1, q as usize));
}

/// A scanner unchanged from `b` is `b` moved to where it stands.
pub proof fn lemma_unchanged_moved(b: &Scanner, c: &Scanner)
    requires
        b.layers().len() > 0,
        c.unchanged_from(b),
    ensures
        c.moved_from(b, b.position()),
{
    assert(b.layers().update(b.layers().len() - 1, b.layers().last()) =~= b.layers());
}

/// A layer opened at `a`, moved to `q`, and aborted, leaves `a` as it was.
pub proof fn lemma_begin_abort(a: &Scanner, b: &Scanner, c: &Scanner, d: &Scanner, q: int)
    requires
        a.layers().len() > 0,
        b.source() == a.source(),
        b.layers() == a.layers().push(a.layers().last()),
        c.moved_from(b, q),
        d.source() == c.source(),
        d.layers() == dropped(c.layers()),
    ensures
        d.unchanged_from(a),
{
    assert(d.layers() =~= a.layers());
}

/// Two moves of the active layer in a row are one move.
pub proof fn lemma_moved_twice(a: &Scanner, b: &Scanner, c: &Scanner, q1: int, q2: int)
    requires
        a.layers().len() > 0,
        b.moved_from(a, q1),
        c.moved_from(b, q2),
    ensures
        c.moved_from(a, q2),
{
    assert(c.layers() =~= a.layers().update(a.layers().len() - 1, q2 as usize));
}

/// Traverses the characters of a source text with backtracking layers.
pub struct Scanner {
    cursor: Cursor,
    chars: Vec<char>,
}

impl Scanner {
    pub closed spec fn source(&self) -> Seq<char> {
        self.chars@
    }

    pub closed spec fn layers(&self) -> Seq<usize> {
        self.cursor.layers()
    }

    /// The position of the active layer.
    pub open spec fn position(&self) -> int {
        self.layers().last() as int
    }

    pub open spec fn wf(&self) -> bool {
        &&& self.layers().len() > 0
        &&& layers_ordered(self.layers())
        &&& self.position() <= self.source().len()
        &&& self.source().len() < usize::MAX
    }

    /// Same source, and the active layer moved to `q` with the layers below it untouched.
    pub open spec fn moved_from(&self, before: &Scanner, q: int) -> bool {
        &&& self.source() == before.source()
        &&& self.layers() == before.layers().update(before.layers().len() - 1, q as usize)
        &&& self.position() == q
    }

    /// A scanner over the characters of `s`, at its start.
    pub fn new(s: &str) -> (r: Self)
        requires
            s@.len() < usize::MAX,
        ensures
            r.wf(),
            r.source() == s@,
            r.layers() == seq![0usize],
    {
        Scanner { cursor: Cursor::new(), chars: crate::chars::chars_of(s) }
    }

    /// Whether the active layer has reached the end of the source.
    pub fn at_end(&self) -> (r: bool)
        requires
            self.wf(),
        ensures
            r == (self.position() == self.source().len()),
    {
        self.cursor.at() == self.chars.len()
    }

    /// Open a new layer at the current position.
    pub fn begin(&mut self)
        requires
            old(self).wf(),
        ensures
            final(self).wf(),
            final(self).source() == old(self).source(),
            final(self).layers() == old(self).layers().push(old(self).layers().last()),
    {
        self.cursor.add();
    }

    /// Drop the active layer, going back to the position of the layer below,
    /// and describe where the dropped layer stood.
    pub fn abort(&mut self) -> (r: ErrorPosition)
        requires
            old(self).wf(),
        ensures
            final(self).wf(),
            final(self).source() == old(self).source(),
            final(self).layers() == dropped(old(self).layers()),
            r.describes(old(self).source(), old(self).layers()),
    {
        self.cursor.collapse(&self.chars)
    }

    /// Drop the active layer, keeping its progress in the layer below.
    pub fn commit(&mut self)
        requires
            old(self).wf(),
        ensures
            final(self).wf(),
            final(self).source() == old(self).source(),
            final(self).layers() == merged(old(self).layers()),
    {
        self.cursor.merge();
    }

    /// The character at the current position, if any.
    pub fn current_char(&self) -> (r: Option<char>)
        requires
            self.wf(),
        ensures
            r == (if self.position() < self.source().len() {
                Some(self.source()[self.position()])
            } else {
                None::<char>
            }),
    {
        let at = self.cursor.at();
        if at < self.chars.len() {
            Some(self.chars[at])
        } else {
            None
        }
    }

    fn advance(&mut self)
        requires
            old(self).wf(),
            old(self).position() < old(self).source().len(),
        ensures
            final(self).wf(),
            final(self).moved_from(old(self), old(self).position() + 1),
    {
        self.cursor.inc();
    }

    fn unexpected(&self, found: char) -> (r: ScanError)
        requires
            self.wf(),
        ensures
            r is UnexpectedSymbol,
            r->UnexpectedSymbol_0.found() == found,
            r.position().describes(self.source(), self.layers()),
    {
        ScanError::UnexpectedSymbol(
            UnexpectedSymbol { found, expected: None, position: self.cursor.describe(&self.chars) },
        )
    }

    fn end_of_input(&self) -> (r: ScanError)
        requires
            self.wf(),
        ensures
            r is UnexpectedEndOfInput,
            r.position().describes(self.source(), self.layers()),
    {
        ScanError::UnexpectedEndOfInput(self.cursor.describe(&self.chars))
    }

    /// Consume `character` if it is the next one; otherwise fail and leave
    /// the scanner as it was.
    pub fn take(&mut self, character: char) -> (r: Result<(), ScanError>)
        requires
            old(self).wf(),
        ensures
            final(self).wf(),
            ({
                let s = old(self).source();
                let p = old(self).position();
                if p < s.len() && s[p] == character {
                    r is Ok && final(self).moved_from(old(self), p + 1)
                } else {
                    &&& r is Err
                    &&& *final(self) == *old(self)
                    &&& (p == s.len() <==> r->Err_0 is UnexpectedEndOfInput)
                    &&& (p < s.len() ==> r->Err_0 is UnexpectedSymbol
                        && r->Err_0->UnexpectedSymbol_0.found() == s[p])
                    &&& r->Err_0.position().describes(s, old(self).layers())
                }
            }),
    {
        match self.current_char() {
            Some(current) => {
                if current == character {
                    self.advance();
                    Ok(())
                } else {
                    let mut e = self.unexpected(current);
                    if let ScanError::UnexpectedSymbol(symbol) = &mut e {
                        symbol.expected = Some(character);
                    }
                    Err(e)
                }
            },
            None => Err(self.end_of_input()),
        }
    }

    /// Consume the characters of `expected` one by one; on the first
    /// mismatch stop there and fail, keeping what was consumed before it.
    pub fn take_str(&mut self, expected: &str) -> (r: Result<(), ScanError>)
        requires
            old(self).wf(),
        ensures
            final(self).wf(),
            ({
                let k = matched_len(old(self).source(), old(self).position(), expected@, 0);
                &&& final(self).moved_from(old(self), old(self).position() + k)
                &&& (r is Ok <==> k == expected@.len())
            }),
    {
        let n = expected.unicode_len();
        let mut i: usize = 0;
        proof {
            assert(old(self).layers().update(old(self).layers().len() - 1, old(self).layers().last())
                =~= old(self).layers());
        }
        while i < n
            invariant
                old(self).wf(),
                self.wf(),
                n == expected@.len(),
                i <= n,
                old(self).position() + i <= old(self).source().len(),
                self.moved_from(old(self), old(self).position() + i),
                matched_len(old(self).source(), old(self).position(), expected@, 0)
                    == matched_len(old(self).source(), old(self).position(), expected@, i as int),
            decreases n - i,
        {
            let character = expected.get_char(i);
            let ghost before = *self;
            match self.take(character) {
                Ok(()) => {
                    proof {
                        let n0 = old(self).layers().len() - 1;
                        assert(before.layers() == old(self).layers().update(
                            n0,
                            (old(self).position() + i) as usize,
                        ));
                        assert(before.position() == old(self).position() + i);
                        assert(self.layers() == before.layers().update(
                            n0,
                            (before.position() + 1) as usize,
                        ));
                        assert(self.layers() =~= old(self).layers().update(
                            n0,
                            (old(self).position() + i + 1) as usize,
                        ));
                    }
                },
                Err(e) => {
                    proof {
                        assert(matched_len(
                            old(self).source(),
                            old(self).position(),
                            expected@,
                            i as int,
                        ) == i);
                    }
                    return Err(e);
                },
            }
            i = i + 1;
        }
        Ok(())
    }

    /// Consume a run of characters, each shown to `callback`, which decides
    /// whether to accept it and whether the run goes on (see `Action`).
    pub fn scan<F: Fn(char) -> Option<Action>>(&mut self, callback: F) -> (r: Result<
        String,
        ScanError,
    >)
        requires
            old(self).wf(),
            forall|c: char| callback.requires((c,)),
        ensures
            final(self).wf(),
            char_run(
                old(self).source(),
                old(self).position(),
                char_steps(callback),
                false,
                None,
                match r {
                    Ok(t) => Some(old(self).position() + t@.len()),
                    Err(_) => None::<int>,
                },
            ),
            r is Ok ==> {
                let q = old(self).position() + r->Ok_0@.len();
                &&& r->Ok_0@ == old(self).source().subrange(old(self).position(), q)
                &&& final(self).moved_from(old(self), q)
            },
            r is Err ==> {
                &&& *final(self) == *old(self)
                &&& (old(self).position() == old(self).source().len()
                    <==> r->Err_0 is UnexpectedEndOfInput)
                &&& (old(self).position() < old(self).source().len() ==> r->Err_0 is UnexpectedSymbol
                    && r->Err_0->UnexpectedSymbol_0.found() == old(self).source()[old(self).position()])
                &&& r->Err_0.position().describes(old(self).source(), old(self).layers())
            },
    {
        let ghost s = self.source();
        let ghost p0 = self.position();
        let mut sequence = String::new();
        let mut accepted = false;
        let mut pending: Option<char> = None;
        proof {
            assert(old(self).layers().update(old(self).layers().len() - 1, old(self).layers().last())
                =~= old(self).layers());
        }
        loop
            invariant
                old(self).wf(),
                self.wf(),
                s == old(self).source(),
                p0 == old(self).position(),
                forall|c: char| callback.requires((c,)),
                self.moved_from(old(self), p0 + sequence@.len()),
                self.position() == p0 + sequence@.len(),
                sequence@ == s.subrange(p0, self.position()),
                accepted == (sequence@.len() > 0),
                pending is Some ==> accepted,
                !accepted ==> *self == *old(self),
                forall|end: Option<int>|
                    char_run(s, self.position(), char_steps(callback), accepted, pending, end) ==> char_run(
                        s,
                        p0,
                        char_steps(callback),
                        false,
                        None,
                        end,
                    ),
            decreases s.len() - self.position(),
        {
            let ghost pos = self.position();
            let current = self.current_char();
            match current {
                None => {
                    if accepted {
                        return Ok(sequence);
                    } else {
                        return Err(self.end_of_input());
                    }
                },
                Some(c) => {
                    let mismatch = match pending {
                        Some(required) => c != required,
                        None => false,
                    };
                    if mismatch {
                        proof {
                            assert(pos == p0 + sequence@.len());
                            assert(char_run(s, pos, char_steps(callback), accepted, pending, Some(pos)));
                        }
                        return Ok(sequence);
                    }
                    let action = callback(c);
                    proof {
                        assert(callback.ensures((c,), action));
                        assert(char_steps(callback)(c, action));
                    }
                    match action {
                        None => {
                            proof {
                                assert(char_steps(callback)(s[pos], action));
                            }
                            if accepted {
                                proof {
                                    assert(char_run(s, pos, char_steps(callback), accepted, pending, Some(pos)));
                                }
                                return Ok(sequence);
                            } else {
                                proof {
                                    assert(char_run(s, pos, char_steps(callback), accepted, pending, None));
                                }
                                return Err(self.unexpected(c));
                            }
                        },
                        Some(Action::Return) => {
                            proof {
                                assert(char_steps(callback)(s[pos], action));
                                assert(char_run(s, pos, char_steps(callback), accepted, pending, Some(pos + 1)));
                            }
                            let ghost before = *self;
                            self.advance();
                            proof {
                                lemma_moved_twice(old(self), &before, self, pos, pos + 1);
                            }
                            push_char(&mut sequence, c);
                            proof {
                                assert(sequence@ =~= s.subrange(p0, self.position()));
                            }
                            return Ok(sequence);
                        },
                        Some(Action::Request) => {
                            proof {
                                assert forall|end: Option<int>|
                                    char_run(s, pos + 1, char_steps(callback), true, None, end) implies char_run(
                                    s,
                                    pos,
                                    char_steps(callback),
                                    accepted,
                                    pending,
                                    end,
                                ) by {
                                    assert(char_steps(callback)(s[pos], action));
                                }
                            }
                            let ghost before = *self;
                            self.advance();
                            proof {
                                lemma_moved_twice(old(self), &before, self, pos, pos + 1);
                            }
                            push_char(&mut sequence, c);
                            accepted = true;
                            pending = None;
                        },
                        Some(Action::Require(next)) => {
                            proof {
                                assert forall|end: Option<int>|
                                    char_run(s, pos + 1, char_steps(callback), true, Some(next), end)
                                    implies char_run(s, pos, char_steps(callback), accepted, pending, end) by {
                                    assert(char_steps(callback)(s[pos], action));
                                }
                            }
                            let ghost before = *self;
                            self.advance();
                            proof {
                                lemma_moved_twice(old(self), &before, self, pos, pos + 1);
                            }
                            push_char(&mut sequence, c);
                            accepted = true;
                            pending = Some(next);
                        },
                    }
                    proof {
                        assert(sequence@ =~= s.subrange(p0, self.position()));
                    }
                },
            }
        }
    }

    /// Consume a run of characters; `callback` is shown the whole run so far,
    /// including the newest character, and decides as in `scan`.
    pub fn scan_seq<F: Fn(&str) -> Option<Action>>(&mut self, callback: F) -> (r: Result<
        String,
        ScanError,
    >)
        requires
            old(self).wf(),
            forall|t: &str| callback.requires((t,)),
        ensures
            final(self).wf(),
            seq_run(
                old(self).source(),
                old(self).position(),
                old(self).position(),
                seq_steps(callback),
                false,
                None,
                match r {
                    Ok(t) => Some(old(self).position() + t@.len()),
                    Err(_) => None::<int>,
                },
            ),
            r is Ok ==> {
                let q = old(self).position() + r->Ok_0@.len();
                &&& r->Ok_0@ == old(self).source().subrange(old(self).position(), q)
                &&& final(self).moved_from(old(self), q)
            },
            r is Err ==> {
                &&& *final(self) == *old(self)
                &&& (old(self).position() == old(self).source().len()
                    <==> r->Err_0 is UnexpectedEndOfInput)
                &&& (old(self).position() < old(self).source().len() ==> r->Err_0 is UnexpectedSymbol
                    && r->Err_0->UnexpectedSymbol_0.found() == old(self).source()[old(self).position()])
                &&& r->Err_0.position().describes(old(self).source(), old(self).layers())
            },
    {
        let ghost s = self.source();
        let ghost p0 = self.position();
        let mut sequence = String::new();
        let mut accepted = false;
        let mut pending: Option<char> = None;
        proof {
            assert(old(self).layers().update(old(self).layers().len() - 1, old(self).layers().last())
                =~= old(self).layers());
        }
        loop
            invariant
                old(self).wf(),
                self.wf(),
                s == old(self).source(),
                p0 == old(self).position(),
                forall|t: &str| callback.requires((t,)),
                self.moved_from(old(self), p0 + sequence@.len()),
                self.position() == p0 + sequence@.len(),
                sequence@ == s.subrange(p0, self.position()),
                accepted == (sequence@.len() > 0),
                pending is Some ==> accepted,
                !accepted ==> *self == *old(self),
                forall|end: Option<int>|
                    seq_run(s, p0, self.position(), seq_steps(callback), accepted, pending, end)
                        ==> seq_run(s, p0, p0, seq_steps(callback), false, None, end),
            decreases s.len() - self.position(),
        {
            let ghost pos = self.position();
            let current = self.current_char();
            match current {
                None => {
                    if accepted {
                        return Ok(sequence);
                    } else {
                        return Err(self.end_of_input());
                    }
                },
                Some(c) => {
                    let mismatch = match pending {
                        Some(required) => c != required,
                        None => false,
                    };
                    if mismatch {
                        proof {
                            assert(seq_run(s, p0, pos, seq_steps(callback), accepted, pending, Some(pos)));
                        }
                        return Ok(sequence);
                    }
                    let mut candidate = sequence.clone();
                    push_char(&mut candidate, c);
                    let shown = candidate.as_str();
                    let action = callback(shown);
                    proof {
                        assert(candidate@ =~= s.subrange(p0, pos + 1));
                        assert(seq_steps(callback)(s.subrange(p0, pos + 1), action));
                    }
                    match action {
                        None => {
                            if accepted {
                                proof {
                                    assert(seq_run(s, p0, pos, seq_steps(callback), accepted, pending, Some(pos)));
                                }
                                return Ok(sequence);
                            } else {
                                proof {
                                    assert(seq_run(s, p0, pos, seq_steps(callback), accepted, pending, None));
                                }
                                return Err(self.unexpected(c));
                            }
                        },
                        Some(Action::Return) => {
                            proof {
                                assert(seq_run(s, p0, pos, seq_steps(callback), accepted, pending, Some(pos + 1)));
                            }
                            let ghost before = *self;
                            self.advance();
                            proof {
                                lemma_moved_twice(old(self), &before, self, pos, pos + 1);
                            }
                            return Ok(candidate);
                        },
                        Some(Action::Request) => {
                            proof {
                                assert forall|end: Option<int>|
                                    seq_run(s, p0, pos + 1, seq_steps(callback), true, None, end)
                                    implies seq_run(s, p0, pos, seq_steps(callback), accepted, pending, end) by {
                                    assert(seq_steps(callback)(s.subrange(p0, pos + 1), action));
                                }
                            }
                            let ghost before = *self;
                            self.advance();
                            proof {
                                lemma_moved_twice(old(self), &before, self, pos, pos + 1);
                            }
                            sequence = candidate;
                            accepted = true;
                            pending = None;
                        },
                        Some(Action::Require(next)) => {
                            proof {
                                assert forall|end: Option<int>|
                                    seq_run(s, p0, pos + 1, seq_steps(callback), true, Some(next), end)
                                    implies seq_run(s, p0, pos, seq_steps(callback), accepted, pending, end) by {
                                    assert(seq_steps(callback)(s.subrange(p0, pos + 1), action));
                                }
                            }
                            let ghost before = *self;
                            self.advance();
                            proof {
                                lemma_moved_twice(old(self), &before, self, pos, pos + 1);
                            }
                            sequence = candidate;
                            accepted = true;
                            pending = Some(next);
                        },
                    }
                },
            }
        }
    }
}

/// How many characters of `t`, from index `i` on, match the source `s` from
/// position `p + i` on, counted from zero.
pub open spec fn matched_len(s: Seq<char>, p: int, t: Seq<char>, i: int) -> int
    decreases t.len() - i,
{
    if 0 <= i < t.len() && 0 <= p + i < s.len() && s[p + i] == t[i] {
        matched_len(s, p, t, i + 1)
    } else {
        i
    }
}

/// The first position from `p` on whose character does not satisfy `pred`,
/// or the end of `s`.
pub open spec fn run_end(s: Seq<char>, p: int, pred: spec_fn(char) -> bool) -> int
    decreases s.len() - p,
{
    if p < 0 || p >= s.len() {
        p
    } else if pred(s[p]) {
        run_end(s, p + 1, pred)
    } else {
        p
    }
}

/// The action of a callback that requests every character satisfying `pred`
/// and rejects every other one.
pub open spec fn request_while(pred: spec_fn(char) -> bool, c: char) -> Option<Action> {
    if pred(c) {
        Some(Action::Request)
    } else {
        None
    }
}

/// A run whose callback requests the characters that satisfy `pred` ends
/// at `run_end`; it fails only if it accepted nothing.
pub proof fn lemma_char_run_while(
    s: Seq<char>,
    p: int,
    step: spec_fn(char, Option<Action>) -> bool,
    pred: spec_fn(char) -> bool,
    accepted: bool,
    end: Option<int>,
)
    requires
        0 <= p <= s.len(),
        forall|c: char, a: Option<Action>| #[trigger] step(c, a) ==> a == request_while(pred, c),
        char_run(s, p, step, accepted, None, end),
    ensures
        p <= run_end(s, p, pred) <= s.len(),
        end == (if run_end(s, p, pred) > p || accepted {
            Some(run_end(s, p, pred))
        } else {
            None::<int>
        }),
    decreases s.len() - p,
{
    if p < s.len() {
        let a = choose|a: Option<Action>|
            #[trigger] step(s[p], a) && match a {
                None => end == (if accepted {
                    Some(p)
                } else {
                    None::<int>
                }),
                Some(Action::Return) => end == Some(p + 1),
                Some(Action::Request) => char_run(s, p + 1, step, true, None, end),
                Some(Action::Require(c)) => char_run(s, p + 1, step, true, Some(c), end),
            };
        if pred(s[p]) {
            lemma_char_run_while(s, p + 1, step, pred, true, end);
        }
    }
}

/// Every character in `[p, run_end)` satisfies `pred`, and the one at
/// `run_end`, if any, does not.
pub proof fn lemma_run_end(s: Seq<char>, p: int, pred: spec_fn(char) -> bool)
    requires
        0 <= p <= s.len(),
    ensures
        p <= run_end(s, p, pred) <= s.len(),
        forall|i: int| p <= i < run_end(s, p, pred) ==> pred(#[trigger] s[i]),
        run_end(s, p, pred) < s.len() ==> !pred(s[run_end(s, p, pred)]),
    decreases s.len() - p,
{
    if p < s.len() && pred(s[p]) {
        lemma_run_end(s, p + 1, pred);
    }
}

} // verus!
