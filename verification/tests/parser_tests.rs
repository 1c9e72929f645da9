use compiler::ast::{Block, InputArg, Title};
use compiler::lexer::{Lexer, Tok};

fn tokens(input: &str) -> Vec<Tok> {
    let mut lexer = Lexer::new(input);
    let mut toks = Vec::new();
    while let Some(item) = lexer.next() {
        let (_, tok, _) = item.unwrap();
        toks.push(tok);
    }
    toks
}

fn unquote(item: &str) -> String {
    item[1..item.len() - 1].to_string()
}

fn parse_title(input: &str) -> Result<Title, String> {
    let toks = tokens(input);
    let mut rest = toks.iter().peekable();
    let level = match rest.next() {
        Some(Tok::Hashes(n)) => *n,
        other => return Err(format!("expected a heading marker, found {:?}", other)),
    };
    let mut content = String::new();
    while let Some(tok) = rest.next() {
        match tok {
            Tok::Space | Tok::Tab | Tok::Linefeed => {}
            Tok::TitleName(text) => content = text.clone(),
            other => return Err(format!("unexpected {:?}", other)),
        }
    }
    Ok(Title::new(&content, level))
}

fn parse_ordered_list_element(input: &str) -> Result<String, String> {
    let toks = tokens(input);
    let mut rest = toks.iter().filter(|tok| !matches!(tok, Tok::Space | Tok::Tab));
    match (rest.next(), rest.next(), rest.next(), rest.next()) {
        (Some(Tok::Number(_)), Some(Tok::Dot), Some(Tok::QuotedItem(item)), None) => {
            Ok(unquote(item))
        }
        other => Err(format!("no list element: {:?}", other)),
    }
}

fn parse_input_arg(input: &str) -> Result<InputArg, String> {
    parse_ordered_list_element(input).map(|name| InputArg::new(&name))
}

fn parse_block(input: &str) -> Result<Block, String> {
    parse_title(input).map(|title| Block::new(Box::new(title)))
}

fn parse_template(input: &str) -> Result<(Vec<String>, Vec<(String, u32)>), String> {
    let mut words = Vec::new();
    let mut params = Vec::new();
    for tok in tokens(input) {
        match tok {
            Tok::Space | Tok::Tab => {}
            Tok::Name(word) => words.push(word),
            Tok::QuotedItem(item) => params.push((unquote(&item), words.len() as u32)),
            other => return Err(format!("unexpected {:?}", other)),
        }
    }
    Ok((words, params))
}

#[test]
fn test_title_level() {
    let input = "### ";
    let res = parse_title(input);
    assert_eq!(3, *res.unwrap().level());
}

fn title_content(input: &str, content: &str) {
    let res = parse_title(input);
    assert_eq!(res.unwrap().content(), content);
}

#[test]
fn test_title_content() {
    title_content("### hello\n", "hello");
    title_content("### hello", "hello");
    title_content("### hello world", "hello world");
    title_content("### `hello world`", "`hello world`");
    title_content("### #hello#world", "#hello#world");
}

#[test]
fn test_ordered_list_element() {
    let input = "1. `a`";

    let res = parse_ordered_list_element(input);
    let s = res.unwrap();

    assert_eq!(s, "a");
}

#[test]
fn test_arg() {
    let input = "1. `a`";

    let res = parse_input_arg(input);
    let s = res.unwrap();

    assert_eq!(format!("{}", s.to_text()), "`a`");
}

#[test]
fn test_block_title() {
    let input = "### hello";
    let res = parse_block(input);
    assert_eq!(input, format!("{}", res.unwrap().title().to_text()));
}

#[test]
fn test_template0() {
    let input = "hello";
    let res = parse_template(input);
    let res = res.unwrap();
    assert_eq!(res.0, vec!["hello"]);
    assert!(res.1.is_empty());
}

#[test]
fn test_template1() {
    let input = "hello `num` world";
    let res = parse_template(input);
    let res = res.unwrap();
    assert_eq!(res.0, vec!["hello", "world"]);
    assert_eq!(res.1, vec![("num".to_string(), 1)]);
}

#[test]
fn test_template2() {
    let input = "`num` world";
    let res = parse_template(input);
    let res = res.unwrap();
    assert_eq!(res.0, vec!["world"]);
    assert_eq!(res.1, vec![("num".to_string(), 0)]);
}
