//! The lexer: tokens, the per-line prefix state, and the token producer.

use vstd::prelude::*;
use crate::scan::{
    advance,
    after_scan,
    bump,
    classify,
    hash_scan,
    heading_allowed,
    initial,
    lemma_floor,
    lemma_produce,
    lemma_step,
    name_scan,
    number_scan,
    outcome_of,
    produce,
    quote_scan,
    step,
    stream,
    title_scan,
    token_stream,
    LexState,
    Outcome,
};
use crate::text::{
    byte_len,
    char_width,
    chars_of,
    continues,
    digit,
    goes_on,
    is_digit_char,
    is_name_char,
    is_name_start_char,
    lemma_offset_monotone,
    lemma_offset_narrow,
    lemma_offset_step,
    lemma_run_end,
    lemma_run_end_from,
    lemma_width,
    name_start,
    parse_decimal,
    push_char,
    run_end,
    trim,
    Run,
};

verus! {

/// A token with the byte offsets at which it starts and ends (the end is
/// exclusive), or an error.
pub type Spanned<Tok, Loc, Error> = Result<(Loc, Tok, Loc), Error>;

/// What the lexer produces.
pub type Item = Spanned<Tok, usize, LexicalError>;

/// What has been seen of the current line so far. It decides how `#`, digits
/// and `.` are read.
#[derive(Clone, Copy, Debug, PartialEq, Eq, Structural)]
pub enum Prefix {
    /// Nothing yet: the line has just begun.
    LineStart,
    /// Only spaces and tabs.
    Whitespace,
    /// A heading marker: the rest of the line is the heading's raw text.
    Title,
    /// Digits, a dot and a space: an ordered-list marker.
    OrderedList,
    /// Reserved.
    UnorderedList,
    /// Digits, not yet followed by a dot.
    Number,
    /// Digits and a dot, not yet followed by a space.
    NumberDot,
    /// Anything else: `#` and digits have no special meaning in this line.
    Others,
}

impl Prefix {
    /// Whether a `#` may still open a heading.
    pub fn allows_heading(self) -> (r: bool)
        ensures
            r == heading_allowed(self),
    {
        self == Prefix::LineStart || self == Prefix::Whitespace
    }

    /// The prefix classifier: the state of the line once the character `c`
    /// has been read in this state.
    pub fn after(self, c: char) -> (p: Prefix)
        ensures
            p == classify(self, c),
    {
        if self == Prefix::NumberDot {
            if c == ' ' {
                Prefix::OrderedList
            } else {
                Prefix::Others
            }
        } else if name_start(c) {
            self
        } else if digit(c) {
            if self.allows_heading() {
                Prefix::Number
            } else {
                self
            }
        } else if c == ' ' || c == '\t' {
            match self {
                Prefix::LineStart => Prefix::Whitespace,
                Prefix::Number => Prefix::Others,
                _ => self,
            }
        } else if c == '.' {
            if self == Prefix::Number {
                Prefix::NumberDot
            } else {
                self
            }
        } else if c == '+' || c == '-' || c == '*' || c == '/' || c == '(' || c == ')' {
            Prefix::Others
        } else {
            self
        }
    }
}

/// A token.
#[derive(Clone, Debug, PartialEq, Eq)]
pub enum Tok {
    Space,
    Tab,
    Linefeed,
    Backtick,
    /// A literal `#`.
    Hash,
    /// A heading marker of that many `#`.
    Hashes(u32),
    Plus,
    Minus,
    Star,
    Slash,
    Dot,
    LParen,
    RParen,
    Name(String),
    Number(i32),
    /// The text of a heading, trimmed.
    TitleName(String),
    /// A span between backticks, the backticks included.
    QuotedItem(String),
}

/// A token as a mathematical value: text is a sequence of characters.
pub enum Token {
    Space,
    Tab,
    Linefeed,
    Backtick,
    Hash,
    Hashes(u32),
    Plus,
    Minus,
    Star,
    Slash,
    Dot,
    LParen,
    RParen,
    Name(Seq<char>),
    Number(i32),
    TitleName(Seq<char>),
    QuotedItem(Seq<char>),
}

impl View for Tok {
    type V = Token;

    open spec fn view(&self) -> Token {
        match *self {
            Tok::Space => Token::Space,
            Tok::Tab => Token::Tab,
            Tok::Linefeed => Token::Linefeed,
            Tok::Backtick => Token::Backtick,
            Tok::Hash => Token::Hash,
            Tok::Hashes(n) => Token::Hashes(n),
            Tok::Plus => Token::Plus,
            Tok::Minus => Token::Minus,
            Tok::Star => Token::Star,
            Tok::Slash => Token::Slash,
            Tok::Dot => Token::Dot,
            Tok::LParen => Token::LParen,
            Tok::RParen => Token::RParen,
            Tok::Name(s) => Token::Name(s@),
            Tok::Number(n) => Token::Number(n),
            Tok::TitleName(s) => Token::TitleName(s@),
            Tok::QuotedItem(s) => Token::QuotedItem(s@),
        }
    }
}

/// Why tokenization failed.
#[derive(Clone, Copy, Debug, PartialEq, Eq, Structural)]
pub enum LexicalError {
    /// A run of digits writes a number above `i32::MAX`.
    NumberTooLarge,
}

/// A produced item as a mathematical value.
pub type SpecItem = Result<(nat, Token, nat), LexicalError>;

/// The mathematical value of a produced item.
pub open spec fn item_view(item: Item) -> SpecItem {
    match item {
        Ok((start, tok, end)) => Ok((start as nat, tok@, end as nat)),
        Err(e) => Err(e),
    }
}

/// The mathematical values of produced items.
pub open spec fn items_view(items: Seq<Item>) -> Seq<SpecItem> {
    items.map_values(|item: Item| item_view(item))
}

/// What one step of the lexer comes to.
#[derive(Debug, PartialEq, Eq)]
pub enum Step {
    /// The text is exhausted, or tokenization has failed before.
    End,
    /// No token: what was read is dropped.
    Skip,
    /// A token with its span, or a fatal error.
    Emit(Item),
}

impl View for Step {
    type V = Outcome;

    open spec fn view(&self) -> Outcome {
        match *self {
            Step::End => Outcome::End,
            Step::Skip => Outcome::Skip,
            Step::Emit(item) => Outcome::Emit(item_view(item)),
        }
    }
}

/// Everything in a lexer that changes as it reads.
#[derive(Clone, Copy)]
struct Registers {
    pos: usize,
    cur_ch: char,
    last_ch: char,
    cur_idx: usize,
    withdraw: bool,
    eof: bool,
    prefix: Prefix,
    line_number: u32,
    failed: bool,
    pending: usize,
}

/// A lexer over one text. It owns the text and reads it once, front to back.
pub struct Lexer {
    chars: Vec<char>,
    regs: Registers,
}

impl Lexer {
    /// The text that the lexer reads.
    pub closed spec fn text(&self) -> Seq<char> {
        self.chars@
    }

    /// The state that the lexer is in.
    pub closed spec fn state(&self) -> LexState {
        LexState {
            taken: self.regs.pos as nat,
            at_end: self.regs.eof,
            pushed_back: self.regs.withdraw,
            prefix: self.regs.prefix,
            lines: self.regs.line_number,
            failed: self.regs.failed,
            pending: self.regs.pending as nat,
        }
    }

    #[verifier::type_invariant]
    closed spec fn inv(&self) -> bool {
        &&& byte_len(self.chars@) <= usize::MAX
        &&& self.state().valid(self.chars@)
        &&& self.regs.cur_ch == self.state().current(self.chars@)
        &&& self.regs.cur_idx == self.state().position(self.chars@)
        &&& self.regs.last_ch == if self.regs.eof {
            if self.chars@.len() == 0 {
                '\n'
            } else {
                self.chars@.last()
            }
        } else if self.regs.pos == 0 {
            '\0'
        } else if self.regs.pos == 1 {
            '\n'
        } else {
            self.chars@[self.regs.pos - 2]
        }
    }

    /// A lexer at the start of `input`.
    pub fn new(input: &str) -> (lexer: Lexer)
        ensures
            lexer.text() == input@,
            lexer.state() == initial(),
    {
        let chars = chars_of(input);
        // The encoding of a text that is held in memory fits in `usize::MAX`
        // bytes, so every byte offset into it is a `usize`.
        let encoded = input.as_bytes().len();
        assert(byte_len(chars@) == encoded);
        Lexer {
            chars,
            regs: Registers {
                pos: 0,
                cur_ch: '\n',
                last_ch: '\0',
                cur_idx: 0,
                withdraw: false,
                eof: false,
                prefix: Prefix::LineStart,
                line_number: 0,
                failed: false,
                pending: 0,
            },
        }
    }

    /// Advances the cursor: takes the next character of the text and returns
    /// it with its byte offset, or signals the end of the text.
    pub fn get_next_char(&mut self) -> (r: Option<(usize, char)>)
        ensures
            final(self).text() == old(self).text(),
            final(self).state().valid(final(self).text()),
            final(self).state() == advance(old(self).text(), old(self).state()).1,
            match r {
                Some((i, c)) => advance(old(self).text(), old(self).state()).0 == Some(
                    (i as nat, c),
                ),
                None => advance(old(self).text(), old(self).state()).0 is None,
            },
    {
        proof {
            use_type_invariant(&*self);
        }
        let regs = self.regs;
        if regs.eof {
            self.regs = Registers { withdraw: false, ..regs };
            return None;
        }
        if regs.withdraw {
            self.regs = Registers { withdraw: false, ..regs };
            return Some((regs.cur_idx, regs.cur_ch));
        }
        proof {
            lemma_offset_monotone(self.chars@, regs.pos as int, self.chars@.len() as int);
            if regs.pos > 0 {
                lemma_offset_step(self.chars@, regs.pos - 1);
            }
        }
        let idx: usize = if regs.pos == 0 {
            0
        } else {
            regs.cur_idx + char_width(regs.cur_ch)
        };
        if regs.pos >= self.chars.len() {
            self.regs = Registers { last_ch: regs.cur_ch, cur_ch: '\0', cur_idx: idx, eof: true, ..regs };
            return None;
        }
        let ch = self.chars[regs.pos];
        self.regs = Registers { last_ch: regs.cur_ch, cur_ch: ch, cur_idx: idx, pos: regs.pos + 1, ..regs };
        Some((idx, ch))
    }

    /// What has been seen of the current line.
    pub fn prefix(&self) -> (prefix: Prefix)
        ensures
            prefix == self.state().prefix,
    {
        self.regs.prefix
    }

    /// How many line feeds have been emitted, up to `u32::MAX`.
    pub fn line_number(&self) -> (lines: u32)
        ensures
            lines == self.state().lines,
    {
        self.regs.line_number
    }

    /// Whether the current character may begin a name. It may not at the end
    /// of the text.
    pub fn is_name_start(&self) -> (r: bool)
        ensures
            r == (!self.state().at_end && is_name_start_char(self.state().current(self.text()))),
    {
        proof {
            use_type_invariant(self);
        }
        if self.regs.eof {
            return false;
        }
        name_start(self.regs.cur_ch)
    }

    /// Whether the current character is a digit. It is not at the end of the
    /// text.
    pub fn is_number_start(&self) -> (r: bool)
        ensures
            r == (!self.state().at_end && is_digit_char(self.state().current(self.text()))),
    {
        proof {
            use_type_invariant(self);
        }
        if self.regs.eof {
            return false;
        }
        digit(self.regs.cur_ch)
    }

    /// Whether the current character may continue a name. It may not at the
    /// end of the text.
    pub fn is_name_continuation(&self) -> (r: bool)
        ensures
            r == (!self.state().at_end && is_name_char(self.state().current(self.text()))),
    {
        if self.regs.eof {
            return false;
        }
        self.is_name_start() || self.is_number_start()
    }

    /// Pushes the current character back: the next advance delivers it
    /// again. There is one slot only, so a character must have been taken
    /// and none may be pushed back already.
    pub fn withdraw_last_ch(&mut self)
        requires
            old(self).state().taken > 0,
            !old(self).state().pushed_back,
        ensures
            final(self).text() == old(self).text(),
            final(self).state().valid(final(self).text()),
            final(self).state() == (LexState { pushed_back: true, ..old(self).state() }),
    {
        proof {
            use_type_invariant(&*self);
        }
        let regs = self.regs;
        self.regs = Registers { withdraw: true, ..regs };
    }

    /// The operator or parenthesis `t` that the current character is: the
    /// token spans that one byte, and the line becomes an ordinary one.
    pub fn consume_special_char(&mut self, t: Tok) -> (r: Option<Item>)
        requires
            old(self).state().on_char(),
        ensures
            final(self).text() == old(self).text(),
            final(self).state().valid(final(self).text()),
            final(self).state() == (LexState { prefix: Prefix::Others, ..old(self).state() }),
            r matches Some(Ok((start, tok, end))) && tok == t && start == old(self).state().position(
                old(self).text(),
            ) && end == start + 1,
    {
        proof {
            use_type_invariant(&*self);
            lemma_offset_monotone(self.chars@, self.regs.pos - 1, self.regs.pos as int);
        }
        let regs = self.regs;
        self.regs = Registers { prefix: Prefix::Others, ..regs };
        let i = regs.cur_idx;
        Some(Ok((i, t, i + 1)))
    }

    /// Moves the cursor over the run of kind `run` that starts at the
    /// current character, and returns how many characters the run has. The
    /// character that ends the run becomes the current one.
    fn skip_run(&mut self, run: Run) -> (n: usize)
        requires
            old(self).state().taken > 0 || old(self).state().at_end,
            !old(self).state().pushed_back,
        ensures
            final(self).text() == old(self).text(),
            final(self).state().valid(final(self).text()),
            old(self).state().index(old(self).text()) + n <= old(self).text().len(),
            old(self).state().index(old(self).text()) + n == run_end(
                old(self).text(),
                old(self).state().index(old(self).text()),
                run,
            ),
            final(self).state() == after_scan(
                old(self).text(),
                old(self).state(),
                old(self).state().index(old(self).text()) + n,
            ),
    {
        proof {
            use_type_invariant(&*self);
        }
        let ghost text = self.chars@;
        let ghost st = self.state();
        let ghost q = st.index(text);
        let mut n: usize = 0;
        while !self.regs.eof && goes_on(run, self.regs.cur_ch)
            invariant
                self.text() == text,
                text == old(self).text(),
                st == old(self).state(),
                q == st.index(text),
                st.valid(text),
                st.taken > 0 || st.at_end,
                self.state().valid(text),
                q + n <= text.len(),
                self.state() == after_scan(text, st, q + n),
                forall|j: int| q <= j < q + n ==> continues(run, #[trigger] text[j]),
            decreases text.len() - q - n,
        {
            proof {
                use_type_invariant(&*self);
            }
            self.get_next_char();
            n += 1;
        }
        proof {
            use_type_invariant(&*self);
            lemma_run_end_from(text, q, q + n, run);
        }
        n
    }

    /// The characters of the text from index `from` up to index `to`.
    fn copy_text(&self, from: usize, to: usize) -> (word: String)
        requires
            from <= to <= self.text().len(),
        ensures
            word@ == self.text().subrange(from as int, to as int),
    {
        let mut word = String::new();
        let mut k: usize = from;
        while k < to
            invariant
                from <= k <= to <= self.chars.len(),
                word@ == self.chars@.subrange(from as int, k as int),
            decreases to - k,
        {
            push_char(&mut word, self.chars[k]);
            k += 1;
            assert(self.chars@.subrange(from as int, k as int) =~= self.chars@.subrange(
                from as int,
                k - 1,
            ).push(self.chars@[k - 1]));
        }
        word
    }

    /// The index in the text from which a scan reads.
    fn index(&self) -> (q: usize)
        requires
            self.state().taken > 0 || self.state().at_end,
        ensures
            q == self.state().index(self.text()),
            q <= self.text().len(),
    {
        proof {
            use_type_invariant(self);
        }
        if self.regs.eof {
            self.chars.len()
        } else {
            self.regs.pos - 1
        }
    }

    /// Reads up to the next character `end`, which becomes the current one,
    /// or to the end of the text, and returns what lies before it, from the
    /// current character on.
    pub fn consume_until(&mut self, end: char) -> (word: String)
        requires
            old(self).state().taken > 0 || old(self).state().at_end,
            !old(self).state().pushed_back,
        ensures
            final(self).text() == old(self).text(),
            final(self).state().valid(final(self).text()),
            word@ == old(self).text().subrange(
                old(self).state().index(old(self).text()),
                run_end(old(self).text(), old(self).state().index(old(self).text()), Run::Until(end)),
            ),
            final(self).state() == after_scan(
                old(self).text(),
                old(self).state(),
                run_end(old(self).text(), old(self).state().index(old(self).text()), Run::Until(end)),
            ),
    {
        let from = self.index();
        let n = self.skip_run(Run::Until(end));
        self.copy_text(from, from + n)
    }

    /// Reads up to the next line feed, which becomes the current character,
    /// or to the end of the text, and returns what lies before it, from the
    /// current character on.
    pub fn comsume_until_endl(&mut self) -> (word: String)
        requires
            old(self).state().taken > 0 || old(self).state().at_end,
            !old(self).state().pushed_back,
        ensures
            final(self).text() == old(self).text(),
            final(self).state().valid(final(self).text()),
            word@ == old(self).text().subrange(
                old(self).state().index(old(self).text()),
                run_end(old(self).text(), old(self).state().index(old(self).text()), Run::Until('\n')),
            ),
            final(self).state() == after_scan(
                old(self).text(),
                old(self).state(),
                run_end(old(self).text(), old(self).state().index(old(self).text()), Run::Until('\n')),
            ),
    {
        self.consume_until('\n')
    }

    /// Reads a name from the current character on and pushes back the
    /// character that follows it.
    pub fn consume_name(&mut self) -> (r: Option<Item>)
        requires
            old(self).state().on_char(),
            !old(self).state().pushed_back,
        ensures
            final(self).text() == old(self).text(),
            final(self).state().valid(final(self).text()),
            (outcome_of(r), final(self).state()) == name_scan(old(self).text(), old(self).state()),
    {
        proof {
            use_type_invariant(&*self);
        }
        let start_idx = self.regs.cur_idx;
        let from = self.index();
        let n = self.skip_run(Run::Name);
        let word = self.copy_text(from, from + n);
        self.withdraw_last_ch();
        proof {
            use_type_invariant(&*self);
            lemma_offset_monotone(self.chars@, from + n, self.chars@.len() as int);
        }
        Some(Ok((start_idx, Tok::Name(word), self.regs.cur_idx)))
    }

    /// Reads a decimal number from the current character, a digit, on and
    /// pushes back the character that follows it. A number above `i32::MAX`
    /// is a fatal error: it is reported, and the lexer produces nothing
    /// more.
    pub fn consume_number(&mut self) -> (r: Option<Item>)
        requires
            old(self).state().on_char(),
            !old(self).state().pushed_back,
            is_digit_char(old(self).state().current(old(self).text())),
        ensures
            final(self).text() == old(self).text(),
            final(self).state().valid(final(self).text()),
            (outcome_of(r), final(self).state()) == number_scan(old(self).text(), old(self).state()),
    {
        proof {
            use_type_invariant(&*self);
        }
        let start_idx = self.regs.cur_idx;
        let from = self.index();
        let n = self.skip_run(Run::Digits);
        self.withdraw_last_ch();
        proof {
            use_type_invariant(&*self);
            lemma_offset_monotone(self.chars@, from + n, self.chars@.len() as int);
            lemma_run_end(self.chars@, from as int, Run::Digits);
        }
        match parse_decimal(&self.chars, from, from + n) {
            Some(value) => Some(Ok((start_idx, Tok::Number(value), self.regs.cur_idx))),
            None => {
                let regs = self.regs;
                self.regs = Registers { failed: true, ..regs };
                Some(Err(LexicalError::NumberTooLarge))
            },
        }
    }

    /// Reads a hash sign, the current character. Where a heading may still
    /// open, it reads the whole run of hash signs and pushes back the
    /// character after it: the run is a heading marker if that character is
    /// a space; if not, nothing is returned, and the hash signs of the run
    /// are left pending, for the steps that follow to emit as literal
    /// tokens. Where no heading may open, the hash sign is a literal token.
    pub fn consume_hashes(&mut self) -> (r: Option<Item>)
        requires
            old(self).state().on_char(),
            !old(self).state().pushed_back,
        ensures
            final(self).text() == old(self).text(),
            final(self).state().valid(final(self).text()),
            (outcome_of(r), final(self).state()) == hash_scan(old(self).text(), old(self).state()),
    {
        proof {
            use_type_invariant(&*self);
            lemma_offset_monotone(self.chars@, self.regs.pos - 1, self.regs.pos as int);
        }
        let saved = self.regs;
        let i = saved.cur_idx;
        if saved.prefix.allows_heading() {
            let n = self.skip_run(Run::Hashes);
            proof {
                use_type_invariant(&*self);
                lemma_run_end(self.chars@, saved.pos - 1, Run::Hashes);
                lemma_offset_narrow(self.chars@, saved.pos - 1, saved.pos - 1 + n);
                lemma_offset_monotone(self.chars@, saved.pos - 1 + n, self.chars@.len() as int);
            }
            let confirmed = !self.regs.eof && self.regs.cur_ch == ' ';
            self.withdraw_last_ch();
            proof {
                use_type_invariant(&*self);
            }
            let regs = self.regs;
            if !confirmed {
                self.regs = Registers { prefix: Prefix::Others, pending: n, ..regs };
                return None;
            }
            self.regs = Registers { prefix: Prefix::Title, ..regs };
            let level: u32 = (n as u64 % 0x1_0000_0000u64) as u32;
            return Some(Ok((i, Tok::Hashes(level), i + n)));
        }
        Some(Ok((i, Tok::Hash, i + 1)))
    }

    /// Reads the text of a heading from the current character on and pushes
    /// back the line feed that ends it.
    fn consume_title(&mut self) -> (r: Option<Item>)
        requires
            old(self).state().on_char(),
            !old(self).state().pushed_back,
        ensures
            final(self).text() == old(self).text(),
            final(self).state().valid(final(self).text()),
            (outcome_of(r), final(self).state()) == title_scan(old(self).text(), old(self).state()),
    {
        proof {
            use_type_invariant(&*self);
        }
        let i = self.regs.cur_idx;
        let ghost q = self.regs.pos - 1;
        let raw = self.comsume_until_endl();
        proof {
            lemma_run_end(self.chars@, q, Run::Until('\n'));
        }
        let tok = Tok::TitleName(trim(raw.as_str()));
        self.withdraw_last_ch();
        proof {
            use_type_invariant(&*self);
            lemma_offset_monotone(self.chars@, self.chars@.len() as int, self.chars@.len() as int);
        }
        Some(Ok((i, tok, self.regs.cur_idx)))
    }

    /// Reads a quoted item from the current character, its opening
    /// backtick, on. An item that no backtick closes before the line ends is
    /// dropped, and the line feed pushed back.
    fn consume_quoted(&mut self) -> (r: Option<Item>)
        requires
            old(self).state().on_char(),
            !old(self).state().pushed_back,
        ensures
            final(self).text() == old(self).text(),
            final(self).state().valid(final(self).text()),
            (outcome_of(r), final(self).state()) == quote_scan(old(self).text(), old(self).state()),
    {
        proof {
            use_type_invariant(&*self);
        }
        let i = self.regs.cur_idx;
        let from = self.index();
        self.get_next_char();
        let n = self.skip_run(Run::Quoted);
        proof {
            use_type_invariant(&*self);
            lemma_run_end(self.chars@, from + 1, Run::Quoted);
        }
        if !self.regs.eof && self.regs.cur_ch == '`' {
            let word = self.copy_text(from, from + n + 2);
            proof {
                lemma_offset_step(self.chars@, from + n + 1);
                lemma_width(self.chars@[from + n + 1]);
                lemma_offset_monotone(self.chars@, from + n + 2, self.chars@.len() as int);
            }
            Some(Ok((i, Tok::QuotedItem(word), self.regs.cur_idx + 1)))
        } else {
            self.withdraw_last_ch();
            None
        }
    }

    /// Sets what has been seen of the current line.
    fn set_prefix(&mut self, prefix: Prefix)
        ensures
            final(self).text() == old(self).text(),
            final(self).state() == (LexState { prefix, ..old(self).state() }),
    {
        proof {
            use_type_invariant(&*self);
        }
        let regs = self.regs;
        self.regs = Registers { prefix, ..regs };
    }

    /// Counts one more line, up to `u32::MAX`.
    fn count_line(&mut self)
        ensures
            final(self).text() == old(self).text(),
            final(self).state() == (LexState {
                lines: bump(old(self).state().lines),
                ..old(self).state()
            }),
    {
        proof {
            use_type_invariant(&*self);
        }
        let regs = self.regs;
        if regs.line_number < u32::MAX {
            self.regs = Registers { line_number: regs.line_number + 1, ..regs };
        }
    }

    /// One step: emits the next pending hash sign of a refused run, or else
    /// advances the cursor and reads the character that it gets by the
    /// scanning rules. The step emits an item, or skips what it read, or
    /// finds the text exhausted.
    pub fn step(&mut self) -> (r: Step)
        ensures
            final(self).text() == old(self).text(),
            final(self).state().valid(final(self).text()),
            (r@, final(self).state()) == step(old(self).text(), old(self).state()),
    {
        proof {
            use_type_invariant(&*self);
        }
        if self.regs.failed {
            return Step::End;
        }
        if self.regs.pending > 0 {
            proof {
                lemma_floor(self.chars@, self.state());
            }
            let regs = self.regs;
            let i = regs.cur_idx - regs.pending;
            self.regs = Registers { pending: regs.pending - 1, ..regs };
            return Step::Emit(Ok((i, Tok::Hash, i + 1)));
        }
        let fresh = !self.regs.withdraw;
        let (i, c) = match self.get_next_char() {
            Some(taken) => taken,
            None => {
                return Step::End;
            },
        };
        proof {
            use_type_invariant(&*self);
            lemma_offset_monotone(self.chars@, self.regs.pos - 1, self.regs.pos as int);
        }
        let is_line_begin = self.regs.last_ch == '\n';
        let prefix = if is_line_begin {
            Prefix::LineStart
        } else {
            self.regs.prefix
        };
        let r = if prefix == Prefix::Title && fresh && c != '\n' {
            self.set_prefix(prefix);
            self.consume_title()
        } else {
            self.set_prefix(prefix.after(c));
            if name_start(c) {
                self.consume_name()
            } else if digit(c) {
                self.consume_number()
            } else if c == '#' {
                self.consume_hashes()
            } else if c == '`' {
                self.consume_quoted()
            } else if c == ' ' {
                Some(Ok((i, Tok::Space, i + 1)))
            } else if c == '\t' {
                Some(Ok((i, Tok::Tab, i + 1)))
            } else if c == '\n' {
                self.count_line();
                Some(Ok((i, Tok::Linefeed, i + 1)))
            } else if c == '+' {
                self.consume_special_char(Tok::Plus)
            } else if c == '-' {
                self.consume_special_char(Tok::Minus)
            } else if c == '*' {
                self.consume_special_char(Tok::Star)
            } else if c == '/' {
                self.consume_special_char(Tok::Slash)
            } else if c == '(' {
                self.consume_special_char(Tok::LParen)
            } else if c == ')' {
                self.consume_special_char(Tok::RParen)
            } else if c == '.' {
                Some(Ok((i, Tok::Dot, i + 1)))
            } else {
                None
            }
        };
        match r {
            Some(item) => Step::Emit(item),
            None => Step::Skip,
        }
    }

    /// Produces the next item: a token with its span, or the error that ends
    /// tokenization. Returns `None` when the text is exhausted or
    /// tokenization has failed before.
    pub fn next(&mut self) -> (r: Option<Item>)
        ensures
            final(self).text() == old(self).text(),
            final(self).state().valid(final(self).text()),
            (
                match r {
                    Some(item) => Some(item_view(item)),
                    None => None,
                },
                final(self).state(),
            ) == produce(old(self).text(), old(self).state()),
    {
        proof {
            use_type_invariant(&*self);
        }
        loop
            invariant
                self.text() == old(self).text(),
                self.state().valid(self.text()),
                produce(self.text(), self.state()) == produce(old(self).text(), old(self).state()),
            decreases self.text().len() - self.state().cursor(self.text()),
        {
            proof {
                lemma_step(self.text(), self.state());
            }
            match self.step() {
                Step::End => {
                    return None;
                },
                Step::Emit(item) => {
                    return Some(item);
                },
                Step::Skip => {},
            }
        }
    }

    /// Produces all the items that are left, and leaves the lexer with none.
    pub fn collect(&mut self) -> (items: Vec<Item>)
        ensures
            final(self).text() == old(self).text(),
            final(self).state().valid(final(self).text()),
            items_view(items@) == stream(old(self).text(), old(self).state()),
            stream(final(self).text(), final(self).state()).len() == 0,
    {
        proof {
            use_type_invariant(&*self);
        }
        let ghost text = self.text();
        let ghost st = self.state();
        let mut items: Vec<Item> = Vec::new();
        assert(items_view(items@) =~= Seq::<SpecItem>::empty());
        loop
            invariant
                self.text() == text,
                text == old(self).text(),
                st == old(self).state(),
                self.state().valid(text),
                st.valid(text),
                items_view(items@) + stream(text, self.state()) == stream(text, st),
            decreases text.len() - self.state().cursor(text), self.state().pending,
        {
            proof {
                lemma_produce(text, self.state());
            }
            let ghost before = items@;
            let ghost rest = stream(text, self.state());
            match self.next() {
                Some(item) => {
                    items.push(item);
                    proof {
                        assert(items_view(items@) =~= items_view(before).push(item_view(item)));
                        assert(items_view(items@) + stream(text, self.state()) =~= items_view(before)
                            + rest);
                    }
                },
                None => {
                    proof {
                        assert(rest =~= Seq::<SpecItem>::empty());
                        assert(items_view(items@) + rest =~= items_view(items@));
                        lemma_produce(text, self.state());
                    }
                    return items;
                },
            }
        }
    }
}

/// The items that a lexer produces from `input`, which are a function of
/// the text alone: run again on the same text, it produces the same.
pub fn tokenize(input: &str) -> (items: Vec<Item>)
    ensures
        items_view(items@) == token_stream(input@),
{
    let mut lexer = Lexer::new(input);
    lexer.collect()
}

} // verus!
