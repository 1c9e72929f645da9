//! The syntax tree that a grammar builds from the lexer's tokens, and the
//! source text that its nodes print as.

use vstd::prelude::*;
use vstd::string::*;
use crate::text::{decimal_digits, push_char, push_decimal};

verus! {

/// A heading.
pub struct Title {
    content: String,
    level: u32,
}

/// A heading as a mathematical value.
pub struct TitleView {
    pub content: Seq<char>,
    pub level: u32,
}

/// The source text of a heading: as many hash signs as its level, a space,
/// and its text.
pub open spec fn title_text(title: TitleView) -> Seq<char> {
    Seq::new(title.level as nat, |i: int| '#') + seq![' '] + title.content
}

impl View for Title {
    type V = TitleView;

    closed spec fn view(&self) -> TitleView {
        TitleView { content: self.content@, level: self.level }
    }
}

impl Title {
    /// A heading of the given text and level.
    pub fn new(title_content: &str, level: u32) -> (title: Title)
        ensures
            title@ == (TitleView { content: title_content@, level }),
    {
        Title { content: title_content.to_owned(), level }
    }

    /// The text of the heading.
    pub fn content(&self) -> (content: &String)
        ensures
            content@ == self@.content,
    {
        &self.content
    }

    /// The level of the heading: the number of hash signs of its marker.
    pub fn level(&self) -> (level: &u32)
        ensures
            *level == self@.level,
    {
        &self.level
    }

    /// The heading as source text.
    pub fn to_text(&self) -> (s: String)
        ensures
            s@ == title_text(self@),
    {
        let mut s = String::new();
        let mut i: u32 = 0;
        while i < self.level
            invariant
                i <= self.level,
                s@ == Seq::new(i as nat, |k: int| '#'),
            decreases self.level - i,
        {
            push_char(&mut s, '#');
            i += 1;
            assert(s@ =~= Seq::new(i as nat, |k: int| '#'));
        }
        push_char(&mut s, ' ');
        s.append(self.content.as_str());
        assert(s@ =~= title_text(self@));
        s
    }
}

/// An input argument of a block.
pub struct InputArg {
    name: String,
}

/// The source text of an input argument: its name between backticks.
pub open spec fn arg_text(name: Seq<char>) -> Seq<char> {
    seq!['`'] + name + seq!['`']
}

impl View for InputArg {
    type V = Seq<char>;

    closed spec fn view(&self) -> Seq<char> {
        self.name@
    }
}

impl InputArg {
    /// An input argument of the given name.
    pub fn new(name: &str) -> (arg: InputArg)
        ensures
            arg@ == name@,
    {
        InputArg { name: name.to_owned() }
    }

    /// The name of the argument.
    pub fn name(&self) -> (name: &String)
        ensures
            name@ == self@,
    {
        &self.name
    }

    /// The argument as source text.
    pub fn to_text(&self) -> (s: String)
        ensures
            s@ == arg_text(self@),
    {
        let mut s = String::new();
        push_char(&mut s, '`');
        s.append(self.name.as_str());
        push_char(&mut s, '`');
        s
    }
}

/// A block: a heading and the input arguments listed under it.
pub struct Block {
    title: Box<Title>,
    input: Vec<Box<InputArg>>,
}

/// A block as a mathematical value.
pub struct BlockView {
    pub title: TitleView,
    pub input: Seq<Seq<char>>,
}

/// The source text of the first `n` input arguments of a list: for each, a
/// line feed, its number in the list, counted from one, a dot, a space, and
/// the argument.
pub open spec fn list_text(input: Seq<Seq<char>>, n: nat) -> Seq<char>
    decreases n,
{
    if n == 0 || n > input.len() {
        Seq::empty()
    } else {
        list_text(input, (n - 1) as nat) + seq!['\n'] + decimal_digits(n) + seq!['.', ' ']
            + arg_text(input[n - 1])
    }
}

/// The source text of a block: its heading, then its input arguments as an
/// ordered list.
pub open spec fn block_text(block: BlockView) -> Seq<char> {
    title_text(block.title) + list_text(block.input, block.input.len())
}

impl View for Block {
    type V = BlockView;

    closed spec fn view(&self) -> BlockView {
        BlockView { title: self.title@, input: self.input@.map_values(|a: Box<InputArg>| a@) }
    }
}

impl Block {
    /// A block with the given heading and no input arguments.
    pub fn new(title: Box<Title>) -> (block: Block)
        ensures
            block@ == (BlockView { title: title@, input: Seq::empty() }),
    {
        let block = Block { title, input: Vec::new() };
        assert(block@.input =~= Seq::empty());
        block
    }

    /// A block with the given heading and input arguments.
    pub fn new_with_inputs(title: Box<Title>, input: Vec<Box<InputArg>>) -> (block: Block)
        ensures
            block@ == (BlockView {
                title: title@,
                input: input@.map_values(|a: Box<InputArg>| a@),
            }),
    {
        Block { title, input }
    }

    /// The heading of the block.
    pub fn title(&self) -> (title: &Box<Title>)
        ensures
            title@ == self@.title,
    {
        &self.title
    }

    /// The input arguments of the block, in order.
    pub fn input(&self) -> (input: &Vec<Box<InputArg>>)
        ensures
            input@.map_values(|a: Box<InputArg>| a@) == self@.input,
    {
        &self.input
    }

    /// The block as source text.
    pub fn to_text(&self) -> (s: String)
        ensures
            s@ == block_text(self@),
    {
        let mut s = self.title.to_text();
        let mut idx: usize = 0;
        while idx < self.input.len()
            invariant
                idx <= self.input.len(),
                s@ == title_text(self@.title) + list_text(self@.input, idx as nat),
            decreases self.input.len() - idx,
        {
            let ghost before = s@;
            push_char(&mut s, '\n');
            push_decimal(&mut s, idx + 1);
            push_char(&mut s, '.');
            push_char(&mut s, ' ');
            let arg = self.input[idx].to_text();
            s.append(arg.as_str());
            idx += 1;
            assert(s@ =~= before + seq!['\n'] + decimal_digits(idx as nat) + seq!['.', ' ']
                + arg_text(self@.input[idx - 1]));
            assert(s@ =~= title_text(self@.title) + list_text(self@.input, idx as nat));
        }
        s
    }
}

/// A comment.
#[derive(Debug)]
pub struct Comment {
    content: String,
}

impl View for Comment {
    type V = Seq<char>;

    closed spec fn view(&self) -> Seq<char> {
        self.content@
    }
}

impl Comment {
    /// A comment of the given text.
    pub fn new(content: &str) -> (comment: Comment)
        ensures
            comment@ == content@,
    {
        Comment { content: content.to_owned() }
    }

    /// The text of the comment.
    pub fn content(&self) -> (content: &String)
        ensures
            content@ == self@,
    {
        &self.content
    }
}

/// An arithmetic expression.
#[derive(Debug)]
pub enum Expr {
    Number(i32),
    Compound(Box<Expr>, Operator, Box<Expr>),
}

/// A binary arithmetic operator.
#[derive(Debug)]
pub enum Operator {
    Add,
    Sub,
    Mul,
    Div,
}

/// A template: literal words, and among them the names of placeholders,
/// each with its place among the words.
#[derive(Debug)]
pub struct Template {
    words: Vec<String>,
    params: Vec<(String, u32)>,
}

impl Template {
    /// The words of the template.
    pub closed spec fn spec_words(&self) -> Seq<String> {
        self.words@
    }

    /// The placeholders of the template.
    pub closed spec fn spec_params(&self) -> Seq<(String, u32)> {
        self.params@
    }

    /// An empty template: the text it is given is not read.
    pub fn new(template_str: &str) -> (template: Template)
        ensures
            template.spec_words().len() == 0,
            template.spec_params().len() == 0,
    {
        Template { words: Vec::new(), params: Vec::new() }
    }

    /// The words of the template.
    pub fn words(&self) -> (words: &Vec<String>)
        ensures
            words@ == self.spec_words(),
    {
        &self.words
    }
}

} // verus!
