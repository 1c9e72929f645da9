use compiler::lexer::{tokenize, Item, Lexer, LexicalError, Prefix, Step, Tok};

fn spans(input: &str) -> Vec<(usize, Tok, usize)> {
    tokenize(input).into_iter().map(|item| item.unwrap()).collect()
}

fn toks(input: &str) -> Vec<Tok> {
    spans(input).into_iter().map(|(_, tok, _)| tok).collect()
}

fn name(s: &str) -> Tok {
    Tok::Name(s.to_string())
}

fn quoted(s: &str) -> Tok {
    Tok::QuotedItem(s.to_string())
}

fn title(s: &str) -> Tok {
    Tok::TitleName(s.to_string())
}

#[test]
fn skip_comments() {
    let source = "# The 12. quick brown fox jumped over the lazy `dog`.";
    let mut lexer = Lexer::new(source);
    let items = lexer.collect();
    for ele in items.iter() {
        println!("{:?}", ele);
    }
    assert_eq!(
        items,
        vec![
            Ok((0, Tok::Hashes(1), 1)),
            Ok((1, Tok::Space, 2)),
            Ok((2, title("The 12. quick brown fox jumped over the lazy `dog`."), 53)),
        ]
    );
}

#[test]
fn empty_text_has_no_tokens() {
    assert_eq!(tokenize(""), Vec::<Item>::new());
    let mut lexer = Lexer::new("");
    assert_eq!(lexer.next(), None);
    assert_eq!(lexer.next(), None);
    assert_eq!(lexer.get_next_char(), None);
}

#[test]
fn heading_marker_then_space() {
    assert_eq!(spans("### "), vec![(0, Tok::Hashes(3), 3), (3, Tok::Space, 4)]);
}

#[test]
fn heading_with_text() {
    assert_eq!(
        spans("### hello"),
        vec![(0, Tok::Hashes(3), 3), (3, Tok::Space, 4), (4, title("hello"), 9)]
    );
}

#[test]
fn heading_text_is_trimmed_and_line_feed_kept() {
    assert_eq!(toks("### hello world"), vec![Tok::Hashes(3), Tok::Space, title("hello world")]);
    assert_eq!(
        spans("### hello world\n"),
        vec![
            (0, Tok::Hashes(3), 3),
            (3, Tok::Space, 4),
            (4, title("hello world"), 15),
            (15, Tok::Linefeed, 16),
        ]
    );
    assert_eq!(
        spans("#   padded \t \nx"),
        vec![
            (0, Tok::Hashes(1), 1),
            (1, Tok::Space, 2),
            (2, title("padded"), 13),
            (13, Tok::Linefeed, 14),
            (14, name("x"), 15),
        ]
    );
}

#[test]
fn heading_text_of_blanks_is_empty() {
    assert_eq!(
        spans("##   "),
        vec![(0, Tok::Hashes(2), 2), (2, Tok::Space, 3), (3, title(""), 5)]
    );
}

#[test]
fn heading_without_text_before_line_feed() {
    assert_eq!(
        toks("## \n# a"),
        vec![
            Tok::Hashes(2),
            Tok::Space,
            Tok::Linefeed,
            Tok::Hashes(1),
            Tok::Space,
            title("a"),
        ]
    );
}

#[test]
fn heading_text_is_raw() {
    assert_eq!(
        toks("### `hello world`"),
        vec![Tok::Hashes(3), Tok::Space, title("`hello world`")]
    );
    assert_eq!(
        toks("### #hello#world"),
        vec![Tok::Hashes(3), Tok::Space, title("#hello#world")]
    );
    assert_eq!(toks("# 1 + 2"), vec![Tok::Hashes(1), Tok::Space, title("1 + 2")]);
}

#[test]
fn heading_after_blanks() {
    assert_eq!(
        toks(" \t## a"),
        vec![Tok::Space, Tok::Tab, Tok::Hashes(2), Tok::Space, title("a")]
    );
}

#[test]
fn hashes_without_space_are_literal() {
    assert_eq!(
        spans("#hello#world"),
        vec![
            (0, Tok::Hash, 1),
            (1, name("hello"), 6),
            (6, Tok::Hash, 7),
            (7, name("world"), 12),
        ]
    );
}

#[test]
fn hashes_before_an_operator_are_literal() {
    assert_eq!(spans("##+"), vec![(0, Tok::Hash, 1), (1, Tok::Hash, 2), (2, Tok::Plus, 3)]);
}

#[test]
fn hashes_at_the_end_are_literal() {
    assert_eq!(toks("##"), vec![Tok::Hash, Tok::Hash]);
    assert_eq!(toks("#\n#"), vec![Tok::Hash, Tok::Linefeed, Tok::Hash]);
}

#[test]
fn hashes_after_rejection_stay_literal() {
    assert_eq!(
        toks("#a # b"),
        vec![Tok::Hash, name("a"), Tok::Space, Tok::Hash, Tok::Space, name("b")]
    );
}

#[test]
fn hash_after_other_content_is_literal() {
    assert_eq!(toks("+# a"), vec![Tok::Plus, Tok::Hash, Tok::Space, name("a")]);
    assert_eq!(
        toks("1 # a"),
        vec![Tok::Number(1), Tok::Space, Tok::Hash, Tok::Space, name("a")]
    );
}

#[test]
fn name_does_not_close_the_line_start() {
    assert_eq!(
        toks("a # b"),
        vec![name("a"), Tok::Space, Tok::Hashes(1), Tok::Space, title("b")]
    );
}

#[test]
fn ordered_list_marker() {
    assert_eq!(
        spans("1. `a`"),
        vec![
            (0, Tok::Number(1), 1),
            (1, Tok::Dot, 2),
            (2, Tok::Space, 3),
            (3, quoted("`a`"), 6),
        ]
    );
}

#[test]
fn ordered_list_prefix_path() {
    let mut lexer = Lexer::new("1. `a`");
    assert_eq!(lexer.prefix(), Prefix::LineStart);
    assert_eq!(lexer.next(), Some(Ok((0, Tok::Number(1), 1))));
    assert_eq!(lexer.prefix(), Prefix::Number);
    assert_eq!(lexer.next(), Some(Ok((1, Tok::Dot, 2))));
    assert_eq!(lexer.prefix(), Prefix::NumberDot);
    assert_eq!(lexer.next(), Some(Ok((2, Tok::Space, 3))));
    assert_eq!(lexer.prefix(), Prefix::OrderedList);
    assert_eq!(lexer.next(), Some(Ok((3, quoted("`a`"), 6))));
    assert_eq!(lexer.prefix(), Prefix::OrderedList);
    assert_eq!(lexer.next(), None);
}

#[test]
fn number_then_space_is_no_list() {
    let mut lexer = Lexer::new("12 .");
    assert_eq!(lexer.next(), Some(Ok((0, Tok::Number(12), 2))));
    assert_eq!(lexer.prefix(), Prefix::Number);
    assert_eq!(lexer.next(), Some(Ok((2, Tok::Space, 3))));
    assert_eq!(lexer.prefix(), Prefix::Others);
    assert_eq!(lexer.next(), Some(Ok((3, Tok::Dot, 4))));
    assert_eq!(lexer.prefix(), Prefix::Others);
}

#[test]
fn number_dot_then_other_is_no_list() {
    let mut lexer = Lexer::new("1.a b");
    lexer.next();
    lexer.next();
    assert_eq!(lexer.prefix(), Prefix::NumberDot);
    assert_eq!(lexer.next(), Some(Ok((2, name("a"), 3))));
    assert_eq!(lexer.prefix(), Prefix::Others);
    assert_eq!(lexer.next(), Some(Ok((3, Tok::Space, 4))));
    assert_eq!(lexer.prefix(), Prefix::Others);

    let mut lexer = Lexer::new("1.\t`a`");
    lexer.next();
    lexer.next();
    assert_eq!(lexer.prefix(), Prefix::NumberDot);
    assert_eq!(lexer.next(), Some(Ok((2, Tok::Tab, 3))));
    assert_eq!(lexer.prefix(), Prefix::Others);
}

#[test]
fn second_number_on_a_line_is_plain() {
    let mut lexer = Lexer::new("1. 2. ");
    for _ in 0..3 {
        lexer.next();
    }
    assert_eq!(lexer.prefix(), Prefix::OrderedList);
    assert_eq!(lexer.next(), Some(Ok((3, Tok::Number(2), 4))));
    assert_eq!(lexer.next(), Some(Ok((4, Tok::Dot, 5))));
    assert_eq!(lexer.next(), Some(Ok((5, Tok::Space, 6))));
    assert_eq!(lexer.prefix(), Prefix::OrderedList);
}

#[test]
fn prefix_resets_after_line_feed() {
    let mut lexer = Lexer::new("+\n ");
    assert_eq!(lexer.next(), Some(Ok((0, Tok::Plus, 1))));
    assert_eq!(lexer.prefix(), Prefix::Others);
    assert_eq!(lexer.line_number(), 0);
    assert_eq!(lexer.next(), Some(Ok((1, Tok::Linefeed, 2))));
    assert_eq!(lexer.prefix(), Prefix::Others);
    assert_eq!(lexer.line_number(), 1);
    assert_eq!(lexer.next(), Some(Ok((2, Tok::Space, 3))));
    assert_eq!(lexer.prefix(), Prefix::Whitespace);
}

#[test]
fn words_and_quoted_items() {
    assert_eq!(
        spans("hello `num` world"),
        vec![
            (0, name("hello"), 5),
            (5, Tok::Space, 6),
            (6, quoted("`num`"), 11),
            (11, Tok::Space, 12),
            (12, name("world"), 17),
        ]
    );
}

#[test]
fn unterminated_quote_is_dropped() {
    assert_eq!(tokenize("`abc"), Vec::<Item>::new());
    assert_eq!(toks("x `abc"), vec![name("x"), Tok::Space]);
}

#[test]
fn unterminated_quote_keeps_the_line_feed() {
    assert_eq!(
        spans("`abc\nx"),
        vec![(4, Tok::Linefeed, 5), (5, name("x"), 6)]
    );
}

#[test]
fn quoted_item_may_be_empty_or_hold_anything() {
    assert_eq!(spans("``"), vec![(0, quoted("``"), 2)]);
    assert_eq!(spans("`a b#1+`"), vec![(0, quoted("`a b#1+`"), 8)]);
}

#[test]
fn names_hold_letters_digits_underscores() {
    assert_eq!(
        spans("_a1 b_2"),
        vec![(0, name("_a1"), 3), (3, Tok::Space, 4), (4, name("b_2"), 7)]
    );
    assert_eq!(spans("1a"), vec![(0, Tok::Number(1), 1), (1, name("a"), 2)]);
}

#[test]
fn names_may_be_any_letters() {
    assert_eq!(
        spans("\u{e9}t\u{e9} \u{4eac}"),
        vec![(0, name("\u{e9}t\u{e9}"), 5), (5, Tok::Space, 6), (6, name("\u{4eac}"), 9)]
    );
}

#[test]
fn operators_and_parentheses() {
    assert_eq!(
        spans("(1+2)*3/4-5"),
        vec![
            (0, Tok::LParen, 1),
            (1, Tok::Number(1), 2),
            (2, Tok::Plus, 3),
            (3, Tok::Number(2), 4),
            (4, Tok::RParen, 5),
            (5, Tok::Star, 6),
            (6, Tok::Number(3), 7),
            (7, Tok::Slash, 8),
            (8, Tok::Number(4), 9),
            (9, Tok::Minus, 10),
            (10, Tok::Number(5), 11),
        ]
    );
}

#[test]
fn other_characters_are_skipped() {
    assert_eq!(spans("a!b"), vec![(0, name("a"), 1), (2, name("b"), 3)]);
    assert_eq!(spans("> \u{2603}x"), vec![(1, Tok::Space, 2), (5, name("x"), 6)]);
    assert_eq!(tokenize("\r"), Vec::<Item>::new());
}

#[test]
fn numbers_up_to_the_largest() {
    assert_eq!(spans("0"), vec![(0, Tok::Number(0), 1)]);
    assert_eq!(spans("007"), vec![(0, Tok::Number(7), 3)]);
    assert_eq!(spans("2147483647"), vec![(0, Tok::Number(2147483647), 10)]);
    assert_eq!(spans("00000000002147483647"), vec![(0, Tok::Number(2147483647), 20)]);
}

#[test]
fn number_too_large_is_fatal() {
    assert_eq!(tokenize("2147483648"), vec![Err(LexicalError::NumberTooLarge)]);
    assert_eq!(
        tokenize("a 99999999999999999999 b"),
        vec![Ok((0, name("a"), 1)), Ok((1, Tok::Space, 2)), Err(LexicalError::NumberTooLarge)]
    );
    let mut lexer = Lexer::new("4294967297 x");
    assert_eq!(lexer.next(), Some(Err(LexicalError::NumberTooLarge)));
    assert_eq!(lexer.next(), None);
    assert_eq!(lexer.step(), Step::End);
    assert_eq!(lexer.next(), None);
}

#[test]
fn cursor_advances_and_pushes_back() {
    let mut lexer = Lexer::new("a\u{e9}b");
    assert_eq!(lexer.get_next_char(), Some((0, 'a')));
    assert_eq!(lexer.get_next_char(), Some((1, '\u{e9}')));
    lexer.withdraw_last_ch();
    assert_eq!(lexer.get_next_char(), Some((1, '\u{e9}')));
    assert_eq!(lexer.get_next_char(), Some((3, 'b')));
    assert_eq!(lexer.get_next_char(), None);
    assert_eq!(lexer.get_next_char(), None);
    lexer.withdraw_last_ch();
    assert_eq!(lexer.get_next_char(), None);
}

#[test]
fn character_classes_of_the_current_character() {
    let mut lexer = Lexer::new("a_1 ");
    assert!(!lexer.is_name_start());
    assert!(!lexer.is_number_start());
    lexer.get_next_char();
    assert!(lexer.is_name_start() && lexer.is_name_continuation() && !lexer.is_number_start());
    lexer.get_next_char();
    assert!(lexer.is_name_start() && lexer.is_name_continuation() && !lexer.is_number_start());
    lexer.get_next_char();
    assert!(!lexer.is_name_start() && lexer.is_name_continuation() && lexer.is_number_start());
    lexer.get_next_char();
    assert!(!lexer.is_name_start() && !lexer.is_name_continuation() && !lexer.is_number_start());
    lexer.get_next_char();
    assert!(!lexer.is_name_start() && !lexer.is_name_continuation() && !lexer.is_number_start());
}

#[test]
fn scans_from_the_current_character() {
    let mut lexer = Lexer::new("ab12 34x;rest\nnext");
    lexer.get_next_char();
    assert_eq!(lexer.consume_name(), Some(Ok((0, name("ab12"), 4))));
    assert_eq!(lexer.get_next_char(), Some((4, ' ')));
    assert_eq!(lexer.get_next_char(), Some((5, '3')));
    assert_eq!(lexer.consume_number(), Some(Ok((5, Tok::Number(34), 7))));
    assert_eq!(lexer.get_next_char(), Some((7, 'x')));
    assert_eq!(lexer.consume_special_char(Tok::Star), Some(Ok((7, Tok::Star, 8))));
    assert_eq!(lexer.prefix(), Prefix::Others);
    assert_eq!(lexer.consume_until(';'), "x".to_string());
    assert_eq!(lexer.comsume_until_endl(), ";rest".to_string());
    assert_eq!(lexer.get_next_char(), Some((14, 'n')));
    assert_eq!(lexer.consume_until('!'), "next".to_string());
    assert_eq!(lexer.consume_until('!'), "".to_string());
}

#[test]
fn hash_scan_confirms_a_heading() {
    let mut lexer = Lexer::new("## a");
    assert_eq!(lexer.get_next_char(), Some((0, '#')));
    assert_eq!(lexer.consume_hashes(), Some(Ok((0, Tok::Hashes(2), 2))));
    assert_eq!(lexer.prefix(), Prefix::Title);
    assert_eq!(lexer.get_next_char(), Some((2, ' ')));
}

#[test]
fn hash_scan_refuses_and_keeps_the_next_character() {
    let mut lexer = Lexer::new("#hello#world");
    assert_eq!(lexer.get_next_char(), Some((0, '#')));
    assert_eq!(lexer.consume_hashes(), None);
    assert_eq!(lexer.prefix(), Prefix::Others);
    assert_eq!(lexer.get_next_char(), Some((1, 'h')));

    let mut lexer = Lexer::new("#\tx");
    assert_eq!(lexer.get_next_char(), Some((0, '#')));
    assert_eq!(lexer.consume_hashes(), None);
    assert_ne!(lexer.prefix(), Prefix::Title);
    assert_eq!(lexer.get_next_char(), Some((1, '\t')));

    let mut lexer = Lexer::new("##a");
    assert_eq!(lexer.get_next_char(), Some((0, '#')));
    assert_eq!(lexer.consume_hashes(), None);
    assert_eq!(lexer.get_next_char(), Some((2, 'a')));
}

#[test]
fn refused_hashes_come_out_before_what_follows() {
    let mut lexer = Lexer::new("###x");
    assert_eq!(lexer.get_next_char(), Some((0, '#')));
    assert_eq!(lexer.consume_hashes(), None);
    assert_eq!(lexer.step(), Step::Emit(Ok((0, Tok::Hash, 1))));
    assert_eq!(lexer.step(), Step::Emit(Ok((1, Tok::Hash, 2))));
    assert_eq!(lexer.next(), Some(Ok((2, Tok::Hash, 3))));
    assert_eq!(lexer.next(), Some(Ok((3, name("x"), 4))));
    assert_eq!(lexer.next(), None);

    let mut lexer = Lexer::new("##");
    assert_eq!(lexer.step(), Step::Skip);
    assert_eq!(lexer.get_next_char(), None);
    assert_eq!(lexer.collect(), vec![Ok((0, Tok::Hash, 1)), Ok((1, Tok::Hash, 2))]);
}

#[test]
fn hash_scan_where_no_heading_can_open() {
    let mut lexer = Lexer::new("+## a");
    assert_eq!(lexer.next(), Some(Ok((0, Tok::Plus, 1))));
    assert_eq!(lexer.get_next_char(), Some((1, '#')));
    assert_eq!(lexer.consume_hashes(), Some(Ok((1, Tok::Hash, 2))));
    assert_eq!(lexer.get_next_char(), Some((2, '#')));
    assert_eq!(lexer.consume_hashes(), Some(Ok((2, Tok::Hash, 3))));
    assert_eq!(lexer.prefix(), Prefix::Others);
}

#[test]
fn refused_hashes_of_many_bytes_before() {
    assert_eq!(
        spans("\u{e9}\u{e9} ##\u{4eac}"),
        vec![
            (0, name("\u{e9}\u{e9}"), 4),
            (4, Tok::Space, 5),
            (5, Tok::Hash, 6),
            (6, Tok::Hash, 7),
            (7, name("\u{4eac}"), 10),
        ]
    );
}

#[test]
fn steps_tell_skips_from_tokens() {
    let mut lexer = Lexer::new("!a");
    assert_eq!(lexer.step(), Step::Skip);
    assert_eq!(lexer.step(), Step::Emit(Ok((1, name("a"), 2))));
    assert_eq!(lexer.step(), Step::End);
}

#[test]
fn prefix_classifier_table() {
    assert_eq!(Prefix::LineStart.after(' '), Prefix::Whitespace);
    assert_eq!(Prefix::LineStart.after('\t'), Prefix::Whitespace);
    assert_eq!(Prefix::LineStart.after('7'), Prefix::Number);
    assert_eq!(Prefix::Whitespace.after('7'), Prefix::Number);
    assert_eq!(Prefix::Others.after('7'), Prefix::Others);
    assert_eq!(Prefix::Number.after('.'), Prefix::NumberDot);
    assert_eq!(Prefix::Others.after('.'), Prefix::Others);
    assert_eq!(Prefix::NumberDot.after(' '), Prefix::OrderedList);
    assert_eq!(Prefix::NumberDot.after('\t'), Prefix::Others);
    assert_eq!(Prefix::NumberDot.after('a'), Prefix::Others);
    assert_eq!(Prefix::NumberDot.after('1'), Prefix::Others);
    assert_eq!(Prefix::NumberDot.after('\n'), Prefix::Others);
    assert_eq!(Prefix::Title.after(' '), Prefix::Title);
    assert_eq!(Prefix::OrderedList.after(' '), Prefix::OrderedList);
    assert_eq!(Prefix::Number.after(' '), Prefix::Others);
    assert_eq!(Prefix::Whitespace.after('+'), Prefix::Others);
    assert_eq!(Prefix::Number.after(')'), Prefix::Others);
    assert_eq!(Prefix::LineStart.after('a'), Prefix::LineStart);
    assert_eq!(Prefix::LineStart.after('\n'), Prefix::LineStart);
    assert!(Prefix::LineStart.allows_heading() && Prefix::Whitespace.allows_heading());
    assert!(!Prefix::Others.allows_heading() && !Prefix::Title.allows_heading());
}

#[test]
fn same_text_gives_same_tokens() {
    let source = "# Title\n1. `a` is first\n\tx = (1+2)*3 ## `open\n#tail";
    assert_eq!(tokenize(source), tokenize(source));
    let mut first = Lexer::new(source);
    let mut second = Lexer::new(source);
    assert_eq!(first.collect(), second.collect());
}

#[test]
fn spans_are_in_order_and_within_the_text() {
    let source = "# T\u{e9}\n1. `a` \u{2603} is first\n\tx = (1+2)*3 ## `open\n#tail";
    let mut end_of_last = 0;
    let mut total = 0;
    for (start, _, end) in spans(source) {
        assert!(end_of_last <= start && start < end && end <= source.len());
        total += end - start;
        end_of_last = end;
    }
    assert!(total <= source.len());
}
