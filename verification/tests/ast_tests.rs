use compiler::ast::{Block, Comment, Expr, InputArg, Operator, Template, Title};

#[test]
fn title_keeps_text_and_level() {
    let title = Title::new("hello world", 2);
    assert_eq!(title.content(), "hello world");
    assert_eq!(*title.level(), 2);
    assert_eq!(title.to_text(), "## hello world");
}

#[test]
fn title_of_level_zero() {
    assert_eq!(Title::new("", 0).to_text(), " ");
    assert_eq!(Title::new("x", 0).to_text(), " x");
}

#[test]
fn input_arg_prints_between_backticks() {
    let arg = InputArg::new("count");
    assert_eq!(arg.name(), "count");
    assert_eq!(arg.to_text(), "`count`");
    assert_eq!(InputArg::new("").to_text(), "``");
}

#[test]
fn block_without_inputs_prints_its_title() {
    let block = Block::new(Box::new(Title::new("add", 3)));
    assert!(block.input().is_empty());
    assert_eq!(block.title().content(), "add");
    assert_eq!(block.to_text(), "### add");
}

#[test]
fn block_prints_inputs_as_ordered_list() {
    let input = vec![Box::new(InputArg::new("a")), Box::new(InputArg::new("b"))];
    let block = Block::new_with_inputs(Box::new(Title::new("add", 3)), input);
    assert_eq!(block.input().len(), 2);
    assert_eq!(block.input()[1].name(), "b");
    assert_eq!(block.to_text(), "### add\n1. `a`\n2. `b`");
}

#[test]
fn block_numbers_inputs_past_nine() {
    let mut input = Vec::new();
    for i in 0..12 {
        input.push(Box::new(InputArg::new(&format!("x{}", i))));
    }
    let block = Block::new_with_inputs(Box::new(Title::new("t", 1)), input);
    let text = block.to_text();
    assert!(text.starts_with("# t\n1. `x0`\n2. `x1`\n"));
    assert!(text.ends_with("\n9. `x8`\n10. `x9`\n11. `x10`\n12. `x11`"));
}

#[test]
fn comment_keeps_its_text() {
    assert_eq!(Comment::new("> note").content(), "> note");
}

#[test]
fn template_starts_empty() {
    let template = Template::new("hello `num` world");
    assert!(template.words().is_empty());
}

#[test]
fn expressions_nest() {
    let sum = Expr::Compound(Box::new(Expr::Number(1)), Operator::Add, Box::new(Expr::Number(2)));
    let product = Expr::Compound(Box::new(sum), Operator::Mul, Box::new(Expr::Number(3)));
    assert_eq!(format!("{:?}", product), "Compound(Compound(Number(1), Add, Number(2)), Mul, Number(3))");
}
