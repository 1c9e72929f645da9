//! The scanning rules as a mathematical model: the state of a lexer over a
//! text, what one advance of the cursor does to it, what each scan makes of
//! the characters ahead, and the stream of items that follows.

use vstd::prelude::*;
use crate::lexer::{
    item_view,
    Item,
    LexicalError,
    Prefix,
    SpecItem,
    Token,
};
use crate::text::{
    byte_len,
    byte_offset,
    decimal_value,
    is_digit_char,
    is_name_start_char,
    lemma_offset_monotone,
    lemma_offset_narrow,
    lemma_offset_step,
    lemma_run_end,
    lemma_width,
    run_end,
    trimmed,
    Run,
};

verus! {

/// The state of a lexer over a text.
pub struct LexState {
    /// How many characters the cursor has taken from the text.
    pub taken: nat,
    /// Whether the cursor has signalled the end of the text.
    pub at_end: bool,
    /// Whether the character taken last has been pushed back, so that the
    /// next advance delivers it again.
    pub pushed_back: bool,
    /// What has been seen of the current line.
    pub prefix: Prefix,
    /// How many line feeds have been emitted, up to `u32::MAX`.
    pub lines: u32,
    /// Whether a fatal error has been reported.
    pub failed: bool,
    /// How many hash signs of a refused run, the last ones before the
    /// current character, are yet to be emitted as literal tokens.
    pub pending: nat,
}

/// The state of a lexer that has not read anything yet.
pub open spec fn initial() -> LexState {
    LexState {
        taken: 0,
        at_end: false,
        pushed_back: false,
        prefix: Prefix::LineStart,
        lines: 0,
        failed: false,
        pending: 0,
    }
}

impl LexState {
    /// The states that a lexer over `text` can be in.
    pub open spec fn valid(self, text: Seq<char>) -> bool {
        &&& self.taken <= text.len()
        &&& self.at_end ==> self.taken == text.len()
        &&& self.pushed_back ==> self.taken > 0
        &&& self.pending == 0 || self.pending <= self.index(text)
    }

    /// Whether the lexer stands on a character of the text: it has taken one
    /// and has not run off the end.
    pub open spec fn on_char(self) -> bool {
        self.taken > 0 && !self.at_end
    }

    /// The index in `text` of the character that the next advance delivers;
    /// the length of `text` if it will deliver none.
    pub open spec fn cursor(self, text: Seq<char>) -> int {
        if self.at_end {
            text.len() as int
        } else if self.pushed_back {
            self.taken - 1
        } else {
            self.taken as int
        }
    }

    /// The index in `text` from which a scan reads: that of the current
    /// character, or the length of `text` at its end.
    pub open spec fn index(self, text: Seq<char>) -> int {
        if self.at_end {
            text.len() as int
        } else {
            self.taken - 1
        }
    }

    /// The current character: the one taken last, a line feed before any was
    /// taken, and the null character at the end of the text.
    pub open spec fn current(self, text: Seq<char>) -> char {
        if self.at_end {
            '\0'
        } else if self.taken == 0 {
            '\n'
        } else {
            text[self.taken - 1]
        }
    }

    /// The byte offset of the current character; the encoded length of the
    /// text at its end.
    pub open spec fn position(self, text: Seq<char>) -> nat {
        if self.at_end {
            byte_len(text)
        } else if self.taken == 0 {
            0
        } else {
            byte_offset(text, self.taken - 1)
        }
    }
}

/// One advance of the cursor: what it delivers, a character with its byte
/// offset or nothing at the end of the text, and the state it leaves. A
/// character that was pushed back is delivered again; the end, once
/// signalled, is signalled ever after.
pub open spec fn advance(text: Seq<char>, st: LexState) -> (Option<(nat, char)>, LexState) {
    if st.at_end {
        (None, LexState { pushed_back: false, ..st })
    } else if st.pushed_back {
        (
            Some((byte_offset(text, st.taken - 1), text[st.taken - 1])),
            LexState { pushed_back: false, ..st },
        )
    } else if st.taken >= text.len() {
        (None, LexState { at_end: true, ..st })
    } else {
        (
            Some((byte_offset(text, st.taken as int), text[st.taken as int])),
            LexState { taken: st.taken + 1, ..st },
        )
    }
}

/// The state that a scan leaves when it has read up to the character of
/// index `e`, which is then the current one, or to the end of the text.
pub open spec fn after_scan(text: Seq<char>, st: LexState, e: int) -> LexState {
    if e < text.len() {
        LexState { taken: (e + 1) as nat, at_end: false, pushed_back: false, ..st }
    } else {
        LexState { taken: text.len(), at_end: true, pushed_back: false, ..st }
    }
}

/// The state that a scan leaves when it has read up to the character of
/// index `e` and pushed that character back.
pub open spec fn after_run(text: Seq<char>, st: LexState, e: int) -> LexState {
    LexState { pushed_back: true, ..after_scan(text, st, e) }
}

/// What one step of the lexer comes to.
pub enum Outcome {
    /// The text is exhausted, or tokenization has failed before.
    End,
    /// No token: what was read is dropped.
    Skip,
    /// A token with its span, or a fatal error.
    Emit(SpecItem),
}

/// The outcome that a scan reports when it returns `r`.
pub open spec fn outcome_of(r: Option<Item>) -> Outcome {
    match r {
        Some(item) => Outcome::Emit(item_view(item)),
        None => Outcome::Skip,
    }
}

/// Whether a `#` may still open a heading in a line of which `p` has been
/// seen.
pub open spec fn heading_allowed(p: Prefix) -> bool {
    p == Prefix::LineStart || p == Prefix::Whitespace
}

/// The token that the character `c` is by itself, if it is one.
pub open spec fn single(c: char) -> Option<Token> {
    if c == ' ' {
        Some(Token::Space)
    } else if c == '\t' {
        Some(Token::Tab)
    } else if c == '\n' {
        Some(Token::Linefeed)
    } else if c == '+' {
        Some(Token::Plus)
    } else if c == '-' {
        Some(Token::Minus)
    } else if c == '*' {
        Some(Token::Star)
    } else if c == '/' {
        Some(Token::Slash)
    } else if c == '(' {
        Some(Token::LParen)
    } else if c == ')' {
        Some(Token::RParen)
    } else if c == '.' {
        Some(Token::Dot)
    } else {
        None
    }
}

/// The prefix classifier: what has been seen of a line once the character
/// `c` is read after what `p` stands for. After digits and a dot, a space
/// completes an ordered-list marker and anything else makes the line an
/// ordinary one. Otherwise a name character changes nothing; a digit starts
/// a number where nothing but blanks came before; a space or a tab keeps a
/// line blank and ends a number; a dot after a number awaits the space; an
/// operator or a parenthesis makes the line an ordinary one; any other
/// character changes nothing.
pub open spec fn classify(p: Prefix, c: char) -> Prefix {
    if p == Prefix::NumberDot {
        if c == ' ' {
            Prefix::OrderedList
        } else {
            Prefix::Others
        }
    } else if is_name_start_char(c) {
        p
    } else if is_digit_char(c) {
        if heading_allowed(p) {
            Prefix::Number
        } else {
            p
        }
    } else if c == ' ' || c == '\t' {
        match p {
            Prefix::LineStart => Prefix::Whitespace,
            Prefix::Number => Prefix::Others,
            _ => p,
        }
    } else if c == '.' {
        if p == Prefix::Number {
            Prefix::NumberDot
        } else {
            p
        }
    } else if c == '+' || c == '-' || c == '*' || c == '/' || c == '(' || c == ')' {
        Prefix::Others
    } else {
        p
    }
}

/// The line counter after one more line feed: it stops at `u32::MAX`.
pub open spec fn bump(lines: u32) -> u32 {
    if lines < u32::MAX {
        (lines + 1) as u32
    } else {
        lines
    }
}

/// A name: the current character and the name characters that follow it.
/// The character after the name is pushed back.
pub open spec fn name_scan(text: Seq<char>, st: LexState) -> (Outcome, LexState) {
    let q = st.taken - 1;
    let e = run_end(text, q, Run::Name);
    (
        Outcome::Emit(
            Ok((byte_offset(text, q), Token::Name(text.subrange(q, e)), byte_offset(text, e))),
        ),
        after_run(text, st, e),
    )
}

/// A number: the current character and the digits that follow it, read as a
/// decimal numeral. The character after the digits is pushed back. A numeral
/// above `i32::MAX` is a fatal error.
pub open spec fn number_scan(text: Seq<char>, st: LexState) -> (Outcome, LexState) {
    let q = st.taken - 1;
    let e = run_end(text, q, Run::Digits);
    let value = decimal_value(text.subrange(q, e));
    if value <= i32::MAX {
        (
            Outcome::Emit(
                Ok((byte_offset(text, q), Token::Number(value as i32), byte_offset(text, e))),
            ),
            after_run(text, st, e),
        )
    } else {
        (
            Outcome::Emit(Err(LexicalError::NumberTooLarge)),
            LexState { failed: true, ..after_run(text, st, e) },
        )
    }
}

/// The count that a heading marker of `n` hash signs carries: `n` itself as
/// long as it fits, its low 32 bits beyond.
pub open spec fn heading_level(n: int) -> u32 {
    (n % 0x1_0000_0000) as u32
}

/// A hash sign. Where a heading may still open, the run of hash signs from
/// the current character on is read, and the character after it is pushed
/// back. If that character is a space, the run is a heading marker and the
/// rest of the line is a title. If it is anything else, the run is no
/// marker: nothing is emitted yet, the line becomes an ordinary one, and the
/// hash signs of the run are left pending, to be emitted one by one as
/// literal tokens. Where no heading may open, the current character is such
/// a token.
pub open spec fn hash_scan(text: Seq<char>, st: LexState) -> (Outcome, LexState) {
    let q = st.taken - 1;
    let e = run_end(text, q, Run::Hashes);
    let i = byte_offset(text, q);
    if !heading_allowed(st.prefix) {
        (Outcome::Emit(Ok((i, Token::Hash, i + 1))), st)
    } else if e < text.len() && text[e] == ' ' {
        (
            Outcome::Emit(Ok((i, Token::Hashes(heading_level(e - q)), (i + (e - q)) as nat))),
            LexState { prefix: Prefix::Title, ..after_run(text, st, e) },
        )
    } else {
        (
            Outcome::Skip,
            LexState { prefix: Prefix::Others, pending: (e - q) as nat, ..after_run(text, st, e) },
        )
    }
}

/// A title: everything from the current character up to the next line feed
/// or the end of the text, trimmed. The span is that of the untrimmed
/// stretch; the line feed is pushed back.
pub open spec fn title_scan(text: Seq<char>, st: LexState) -> (Outcome, LexState) {
    let q = st.taken - 1;
    let e = run_end(text, q, Run::Until('\n'));
    (
        Outcome::Emit(
            Ok(
                (
                    byte_offset(text, q),
                    Token::TitleName(trimmed(text.subrange(q, e))),
                    byte_offset(text, e),
                ),
            ),
        ),
        after_run(text, st, e),
    )
}

/// A quoted item: from the current character, a backtick, to the next
/// backtick, both included. If a line feed or the end of the text comes
/// first, nothing is emitted: what was read is dropped, and the line feed
/// is pushed back.
pub open spec fn quote_scan(text: Seq<char>, st: LexState) -> (Outcome, LexState) {
    let q = st.taken - 1;
    let e = run_end(text, q + 1, Run::Quoted);
    if e < text.len() && text[e] == '`' {
        (
            Outcome::Emit(
                Ok(
                    (
                        byte_offset(text, q),
                        Token::QuotedItem(text.subrange(q, e + 1)),
                        byte_offset(text, e + 1),
                    ),
                ),
            ),
            after_scan(text, st, e),
        )
    } else {
        (Outcome::Skip, after_run(text, st, e))
    }
}

/// Whether the character of index `q` is the first of its line.
pub open spec fn starts_line(text: Seq<char>, q: int) -> bool {
    q == 0 || text[q - 1] == '\n'
}

/// The pending hash sign that is emitted next: a literal token over the one
/// byte at which it stands.
pub open spec fn pending_hash(text: Seq<char>, st: LexState) -> SpecItem {
    Ok(
        (
            (st.position(text) - st.pending) as nat,
            Token::Hash,
            (st.position(text) - st.pending + 1) as nat,
        ),
    )
}

/// One step of the lexer. While hash signs are pending, a step emits the
/// next of them and reads nothing. Otherwise it advances the cursor and goes
/// by the character that it gets. The first character of a line is read as
/// if nothing had been seen before it. A character read for the first time
/// in the line of a heading starts the title. Any other character, and one
/// that was pushed back, is first classified and then read by these rules,
/// in this order: a name; a number; a hash sign; a quoted item; a character
/// that is a token by itself. A character that none of them takes is
/// skipped.
pub open spec fn step(text: Seq<char>, st: LexState) -> (Outcome, LexState) {
    let s1 = advance(text, st).1;
    if st.failed {
        (Outcome::End, st)
    } else if st.pending > 0 {
        (
            Outcome::Emit(pending_hash(text, st)),
            LexState { pending: (st.pending - 1) as nat, ..st },
        )
    } else if s1.at_end {
        (Outcome::End, s1)
    } else {
        let q = s1.taken - 1;
        let c = text[q];
        let i = byte_offset(text, q);
        let fresh = !st.pushed_back;
        let p = if starts_line(text, q) {
            Prefix::LineStart
        } else {
            st.prefix
        };
        let s = LexState { prefix: classify(p, c), ..s1 };
        if p == Prefix::Title && fresh && c != '\n' {
            title_scan(text, LexState { prefix: p, ..s1 })
        } else if is_name_start_char(c) {
            name_scan(text, s)
        } else if is_digit_char(c) {
            number_scan(text, s)
        } else if c == '#' {
            hash_scan(text, s)
        } else if c == '`' {
            quote_scan(text, s)
        } else {
            match single(c) {
                Some(tok) => (
                    Outcome::Emit(Ok((i, tok, i + 1))),
                    LexState {
                        lines: if c == '\n' {
                            bump(s.lines)
                        } else {
                            s.lines
                        },
                        ..s
                    },
                ),
                None => (Outcome::Skip, s),
            }
        }
    }
}

/// The prefix that the character at the cursor will be read with: the start
/// of a line for a character that begins its line, else the prefix that the
/// state holds.
pub open spec fn line_prefix(text: Seq<char>, st: LexState) -> Prefix {
    if starts_line(text, st.cursor(text)) {
        Prefix::LineStart
    } else {
        st.prefix
    }
}

/// The least byte offset at which the next token can start: that of the
/// first pending hash sign, or else that of the character at the cursor.
pub open spec fn floor(text: Seq<char>, st: LexState) -> nat {
    if st.pending > 0 {
        (st.position(text) - st.pending) as nat
    } else {
        byte_offset(text, st.cursor(text))
    }
}

/// What a step yields and where it leaves the lexer: a valid state, with the
/// cursor no further back. A step that emits a pending hash sign leaves one
/// fewer pending; any other step that emits, and any that skips, moves the
/// cursor on. A token covers at least one byte; it starts no earlier than
/// the next token could before the step, and ends no later than the next
/// token can start after it.
pub proof fn lemma_step(text: Seq<char>, st: LexState)
    requires
        st.valid(text),
    ensures
        step(text, st).1.valid(text),
        st.cursor(text) <= step(text, st).1.cursor(text) <= text.len(),
        floor(text, st) <= floor(text, step(text, st).1) <= byte_len(text),
        step(text, st).0 is Emit ==> st.cursor(text) < step(text, st).1.cursor(text) || (
        st.cursor(text) == step(text, st).1.cursor(text) && step(text, st).1.pending < st.pending),
        step(text, st).0 is Skip ==> st.cursor(text) < step(text, st).1.cursor(text),
        step(text, st).0 is End ==> step(text, st).1.failed || (step(text, st).1.at_end && step(
            text,
            st,
        ).1.pending == 0),
        step(text, st).0 matches Outcome::Emit(Ok((start, _, end))) ==> floor(text, st) <= start
            < end <= floor(text, step(text, st).1),
        step(text, st).0 matches Outcome::Emit(Err(_)) ==> step(text, st).1.failed,
        st.failed ==> step(text, st).0 is End,
{
    lemma_floor(text, st);
    if !st.failed && st.pending == 0 && !advance(text, st).1.at_end {
        lemma_step_reads(text, st);
    }
}

/// Whether a step from the character of index `q` to the outcome and state
/// `r` has moved on: the state is valid and its cursor past `q`; a token
/// starts at `q` or later, covers at least one byte, and ends no later than
/// the next token can start; an error leaves the lexer failed; and only a
/// step that emits nothing leaves hash signs pending.
pub open spec fn moves_on(text: Seq<char>, q: int, r: (Outcome, LexState)) -> bool {
    let (out, s) = r;
    &&& s.valid(text)
    &&& q < s.cursor(text) <= text.len()
    &&& byte_offset(text, q) <= floor(text, s) <= byte_len(text)
    &&& !(out is End)
    &&& out matches Outcome::Emit(Ok((start, _, end))) ==> byte_offset(text, q) <= start < end
        <= floor(text, s)
    &&& out matches Outcome::Emit(Err(_)) ==> s.failed
    &&& out is Emit ==> s.pending == 0
}

/// A scan that reads on from the current character to the character of
/// index `e` leaves a valid state with its cursor there, or after it if that
/// character is not pushed back.
proof fn lemma_after_scan(text: Seq<char>, st: LexState, e: int)
    requires
        st.valid(text),
        st.on_char(),
        st.pending == 0,
        st.taken - 1 <= e <= text.len(),
    ensures
        after_run(text, st, e).valid(text),
        after_run(text, st, e).cursor(text) == e,
        floor(text, after_run(text, st, e)) == byte_offset(text, e),
        after_scan(text, st, e).valid(text),
        after_scan(text, st, e).cursor(text) == if e < text.len() {
            e + 1
        } else {
            e
        },
        byte_offset(text, st.taken - 1) <= byte_offset(text, e) <= byte_len(text),
        e - (st.taken - 1) <= byte_offset(text, e) - byte_offset(text, st.taken - 1),
{
    lemma_offset_monotone(text, st.taken - 1, e);
    lemma_offset_monotone(text, e, text.len() as int);
}

/// A name scan from a name character moves on.
proof fn lemma_name_scan(text: Seq<char>, st: LexState)
    requires
        st.valid(text),
        st.on_char(),
        st.pending == 0,
        is_name_start_char(text[st.taken - 1]),
    ensures
        moves_on(text, st.taken - 1, name_scan(text, st)),
{
    let q = st.taken - 1;
    lemma_run_end(text, q, Run::Name);
    lemma_after_scan(text, st, run_end(text, q, Run::Name));
}

/// A number scan from a digit moves on.
proof fn lemma_number_scan(text: Seq<char>, st: LexState)
    requires
        st.valid(text),
        st.on_char(),
        st.pending == 0,
        is_digit_char(text[st.taken - 1]),
    ensures
        moves_on(text, st.taken - 1, number_scan(text, st)),
{
    let q = st.taken - 1;
    lemma_run_end(text, q, Run::Digits);
    lemma_after_scan(text, st, run_end(text, q, Run::Digits));
}

/// A title scan from a character other than a line feed moves on.
proof fn lemma_title_scan(text: Seq<char>, st: LexState)
    requires
        st.valid(text),
        st.on_char(),
        st.pending == 0,
        text[st.taken - 1] != '\n',
    ensures
        moves_on(text, st.taken - 1, title_scan(text, st)),
{
    let q = st.taken - 1;
    lemma_run_end(text, q, Run::Until('\n'));
    lemma_after_scan(text, st, run_end(text, q, Run::Until('\n')));
}

/// A hash scan from a hash sign moves on.
proof fn lemma_hash_scan(text: Seq<char>, st: LexState)
    requires
        st.valid(text),
        st.on_char(),
        !st.pushed_back,
        st.pending == 0,
        text[st.taken - 1] == '#',
    ensures
        moves_on(text, st.taken - 1, hash_scan(text, st)),
{
    let q = st.taken - 1;
    let e = run_end(text, q, Run::Hashes);
    lemma_run_end(text, q, Run::Hashes);
    lemma_offset_narrow(text, q, e);
    lemma_after_scan(text, st, e);
    lemma_after_scan(text, st, q);
    lemma_offset_step(text, q);
    lemma_width('#');
}

/// A quote scan moves on.
proof fn lemma_quote_scan(text: Seq<char>, st: LexState)
    requires
        st.valid(text),
        st.on_char(),
        st.pending == 0,
    ensures
        moves_on(text, st.taken - 1, quote_scan(text, st)),
{
    let q = st.taken - 1;
    let e = run_end(text, q + 1, Run::Quoted);
    lemma_run_end(text, q + 1, Run::Quoted);
    lemma_after_scan(text, st, e);
    if e < text.len() {
        lemma_offset_step(text, e);
        lemma_width(text[e]);
        lemma_offset_monotone(text, e + 1, text.len() as int);
    }
}

/// A step that reads a character moves on.
proof fn lemma_step_reads(text: Seq<char>, st: LexState)
    requires
        st.valid(text),
        !st.failed,
        st.pending == 0,
        !advance(text, st).1.at_end,
    ensures
        moves_on(text, st.cursor(text), step(text, st)),
{
    let s1 = advance(text, st).1;
    let q = s1.taken - 1;
    let c = text[q];
    let p = if starts_line(text, q) {
        Prefix::LineStart
    } else {
        st.prefix
    };
    let s = LexState { prefix: classify(p, c), ..s1 };
    if p == Prefix::Title && !st.pushed_back && c != '\n' {
        lemma_title_scan(text, LexState { prefix: p, ..s1 });
    } else if is_name_start_char(c) {
        lemma_name_scan(text, s);
    } else if is_digit_char(c) {
        lemma_number_scan(text, s);
    } else if c == '#' {
        lemma_hash_scan(text, s);
    } else if c == '`' {
        lemma_quote_scan(text, s);
    } else {
        lemma_after_scan(text, s, q);
        lemma_offset_step(text, q);
        lemma_width(c);
        lemma_offset_monotone(text, q + 1, text.len() as int);
    }
}

/// The pending hash signs lie within the text, before the current
/// character.
pub proof fn lemma_floor(text: Seq<char>, st: LexState)
    requires
        st.valid(text),
    ensures
        st.pending <= st.position(text) <= byte_offset(text, st.cursor(text)) <= byte_len(text),
        floor(text, st) <= byte_len(text),
{
    lemma_offset_monotone(text, 0, st.cursor(text));
    lemma_offset_monotone(text, st.cursor(text), text.len() as int);
    if st.taken > 0 || st.at_end {
        lemma_offset_monotone(text, 0, st.index(text));
        lemma_offset_monotone(text, st.index(text), text.len() as int);
        lemma_offset_monotone(text, st.index(text), st.cursor(text));
    }
}

/// The next item of the stream, if there is one, and the state that
/// producing it leaves: steps are taken until one emits an item or the text
/// ends.
pub open spec fn produce(text: Seq<char>, st: LexState) -> (Option<SpecItem>, LexState)
    decreases text.len() - st.cursor(text),
    when st.valid(text)
    via produce_decreases
{
    let (out, s) = step(text, st);
    match out {
        Outcome::End => (None, s),
        Outcome::Emit(item) => (Some(item), s),
        Outcome::Skip => produce(text, s),
    }
}

#[via_fn]
proof fn produce_decreases(text: Seq<char>, st: LexState) {
    lemma_step(text, st);
}

/// What producing an item does: it leaves a valid state with the cursor no
/// further back. An item is a pending hash sign, of which one fewer is then
/// left, or it moves the cursor on. A token covers at least one byte; it
/// starts no earlier than the next token could before, and ends no later
/// than the next token can start after it. An error leaves the lexer failed,
/// and a failed lexer produces nothing.
pub proof fn lemma_produce(text: Seq<char>, st: LexState)
    requires
        st.valid(text),
    ensures
        produce(text, st).1.valid(text),
        st.cursor(text) <= produce(text, st).1.cursor(text) <= text.len(),
        floor(text, st) <= floor(text, produce(text, st).1) <= byte_len(text),
        produce(text, st).0 is Some ==> st.cursor(text) < produce(text, st).1.cursor(text) || (
        st.cursor(text) == produce(text, st).1.cursor(text) && produce(text, st).1.pending
            < st.pending),
        produce(text, st).0 is None ==> produce(text, st).1.failed || (produce(text, st).1.at_end
            && produce(text, st).1.pending == 0),
        produce(text, st).0 matches Some(Ok((start, _, end))) ==> floor(text, st) <= start < end
            <= floor(text, produce(text, st).1),
        produce(text, st).0 matches Some(Err(_)) ==> produce(text, st).1.failed,
        st.failed ==> produce(text, st).0 is None,
    decreases text.len() - st.cursor(text),
{
    lemma_step(text, st);
    let (out, s) = step(text, st);
    if out is Skip {
        lemma_produce(text, s);
    }
}

/// The items that a lexer in state `st` produces until it has none left.
pub open spec fn stream(text: Seq<char>, st: LexState) -> Seq<SpecItem>
    decreases text.len() - st.cursor(text), st.pending,
    when st.valid(text)
    via stream_decreases
{
    match produce(text, st) {
        (Some(item), s) => seq![item] + stream(text, s),
        (None, _) => Seq::empty(),
    }
}

#[via_fn]
proof fn stream_decreases(text: Seq<char>, st: LexState) {
    lemma_produce(text, st);
}

/// The items that a lexer produces from a text: its tokens in order, and
/// after them the error, if tokenization fails.
pub open spec fn token_stream(text: Seq<char>) -> Seq<SpecItem> {
    stream(text, initial())
}

} // verus!
