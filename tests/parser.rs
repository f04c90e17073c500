use occ::ast::{BinOp, Node};
use occ::parser::{ParseError, Parser};
use std::collections::HashSet;

fn num(n: u64) -> Box<Node> {
    Box::new(Node::Num(n))
}

fn var(i: usize) -> Box<Node> {
    Box::new(Node::Var(i))
}

fn bin(op: BinOp, l: Box<Node>, r: Box<Node>) -> Box<Node> {
    Box::new(Node::Binary(op, l, r))
}

fn parse(src: &str) -> Result<Vec<Node>, ParseError> {
    Parser::new(src).parse()
}

#[test]
fn test_set() {
    let mut set: HashSet<i32> = HashSet::new();
    set.insert(1);
    set.insert(2);
    assert_eq!(set.len(), 2)
}

#[test]
fn test_stmt() {
    let mut parser = Parser::new("var = 1; var;");
    println!("{:?}", parser.parse());
    println!("{:?}", parser);
}

#[test]
fn debug_if() {
    let mut parser = Parser::new("if 3 == 1 a=1;else a=0;");
    println!("{:?}", parser.parse());
    println!("{:?}", parser);
}

#[test]
fn debug_for() {
    let mut parser = Parser::new("for(i=0;;) return 0;");
    println!("{:?}", parser.parse());
    println!("{:?}", parser);
}

#[test]
fn statements_in_order() {
    let mut parser = Parser::new("var = 1; var;");
    let prog = parser.parse().unwrap();
    assert_eq!(
        prog,
        vec![*bin(BinOp::Assign, var(0), num(1)), Node::Var(0)]
    );
    assert_eq!(parser.vars.len(), 1);
    assert_eq!(parser.vars.name(0), "var");
}

#[test]
fn if_else_statement() {
    let mut parser = Parser::new("if 3 == 1 a=1;else a=0;");
    let prog = parser.parse().unwrap();
    assert_eq!(
        prog,
        vec![Node::If {
            cond: bin(BinOp::Eq, num(3), num(1)),
            then_branch: bin(BinOp::Assign, var(0), num(1)),
            else_branch: Some(bin(BinOp::Assign, var(0), num(0))),
        }]
    );
}

#[test]
fn for_statement_with_empty_parts() {
    let mut parser = Parser::new("for(i=0;;) return 0;");
    let prog = parser.parse().unwrap();
    assert_eq!(
        prog,
        vec![Node::For {
            init: Some(bin(BinOp::Assign, var(0), num(0))),
            cond: None,
            inc: None,
            body: Box::new(Node::Return(num(0))),
        }]
    );
    assert_eq!(parser.vars.name(0), "i");
}

#[test]
fn for_statement_full() {
    let prog = parse("for (i = 0; i < 10; i = i + 1) s = s + i;").unwrap();
    assert_eq!(
        prog,
        vec![Node::For {
            init: Some(bin(BinOp::Assign, var(0), num(0))),
            cond: Some(bin(BinOp::Lt, var(0), num(10))),
            inc: Some(bin(BinOp::Assign, var(0), bin(BinOp::Add, var(0), num(1)))),
            body: bin(BinOp::Assign, var(1), bin(BinOp::Add, var(1), var(0))),
        }]
    );
}

#[test]
fn while_statement() {
    let prog = parse("while i != 0 i = i - 1;").unwrap();
    assert_eq!(
        prog,
        vec![Node::While {
            cond: bin(BinOp::Ne, var(0), num(0)),
            body: bin(BinOp::Assign, var(0), bin(BinOp::Sub, var(0), num(1))),
        }]
    );
}

#[test]
fn flip_greater_than() {
    let a = parse("3 > 4").unwrap();
    let b = parse("4 < 3").unwrap();
    assert_eq!(a, b);
    assert_eq!(a, vec![*bin(BinOp::Lt, num(4), num(3))]);
}

#[test]
fn flip_arrow() {
    let a = parse("3 => 4").unwrap();
    let b = parse("4 <= 3").unwrap();
    assert_eq!(a, b);
    assert_eq!(a, vec![*bin(BinOp::Le, num(4), num(3))]);
}

#[test]
fn assignment_groups_right() {
    let prog = parse("a = b = 1").unwrap();
    assert_eq!(
        prog,
        vec![*bin(BinOp::Assign, var(0), bin(BinOp::Assign, var(1), num(1)))]
    );
}

#[test]
fn symbol_registered_once() {
    let mut parser = Parser::new("a = 1; a = a + 1;");
    let prog = parser.parse().unwrap();
    assert_eq!(prog.len(), 2);
    assert_eq!(parser.vars.len(), 1);
    assert_eq!(parser.vars.name(0), "a");
}

#[test]
fn unary_minus_is_subtraction_from_zero() {
    assert_eq!(parse("-5").unwrap(), vec![*bin(BinOp::Sub, num(0), num(5))]);
    assert_eq!(parse("+5").unwrap(), vec![Node::Num(5)]);
}

#[test]
fn unterminated_parenthesis_is_syntax_error() {
    assert_eq!(parse("(1 + 2"), Err(ParseError::Syntax(String::new())));
    assert_eq!(parse("(1 + 2 3"), Err(ParseError::Syntax("3".to_string())));
}

#[test]
fn unknown_character_stops_parse() {
    assert_eq!(parse("1 + @"), Err(ParseError::Lexical("@".to_string())));
}

#[test]
fn missing_operand_is_syntax_error() {
    assert_eq!(parse("1 +"), Err(ParseError::Syntax(String::new())));
    assert_eq!(parse("return;"), Err(ParseError::Syntax(";".to_string())));
    assert_eq!(parse("1 + if"), Err(ParseError::Syntax("if".to_string())));
}

#[test]
fn whitespace_does_not_change_tree() {
    let a = parse("1+2").unwrap();
    let b = parse("1 + 2").unwrap();
    let c = parse("  1  +  2  ").unwrap();
    assert_eq!(a, b);
    assert_eq!(b, c);
    assert_eq!(a, vec![*bin(BinOp::Add, num(1), num(2))]);
}

#[test]
fn whitespace_only_program_is_empty() {
    assert_eq!(parse(""), Ok(vec![]));
    assert_eq!(parse(" \n\t "), Ok(vec![]));
}

#[test]
fn precedence_levels() {
    let prog = parse("a = 1 + 2 * 3 < 4 == 5").unwrap();
    let sum = bin(BinOp::Add, num(1), bin(BinOp::Mul, num(2), num(3)));
    let cmp = bin(BinOp::Lt, sum, num(4));
    let eq = bin(BinOp::Eq, cmp, num(5));
    assert_eq!(prog, vec![*bin(BinOp::Assign, var(0), eq)]);
}

#[test]
fn left_associative_arithmetic() {
    let prog = parse("8 - 3 - 2; 8 / 4 / 2").unwrap();
    assert_eq!(
        prog,
        vec![
            *bin(BinOp::Sub, bin(BinOp::Sub, num(8), num(3)), num(2)),
            *bin(BinOp::Div, bin(BinOp::Div, num(8), num(4)), num(2)),
        ]
    );
}

#[test]
fn parentheses_group() {
    let prog = parse("(1 + 2) * 3").unwrap();
    assert_eq!(
        prog,
        vec![*bin(BinOp::Mul, bin(BinOp::Add, num(1), num(2)), num(3))]
    );
}

#[test]
fn keyword_prefix_is_a_variable() {
    let mut parser = Parser::new("returns = 1;");
    let prog = parser.parse().unwrap();
    assert_eq!(prog, vec![*bin(BinOp::Assign, var(0), num(1))]);
    assert_eq!(parser.vars.name(0), "returns");
}

#[test]
fn missing_semicolon_is_tolerated() {
    let prog = parse("a = 1 b = 2").unwrap();
    assert_eq!(
        prog,
        vec![
            *bin(BinOp::Assign, var(0), num(1)),
            *bin(BinOp::Assign, var(1), num(2)),
        ]
    );
}

#[test]
fn for_header_needs_open_parenthesis() {
    assert_eq!(
        parse("for i=0; i<3; i=i+1) x;"),
        Err(ParseError::Syntax("i=0; i<3; i=i+1) x;".to_string()))
    );
}

#[test]
fn for_header_needs_both_separators() {
    assert_eq!(parse("for (i=0; i<3) x;"), Err(ParseError::Syntax(") x;".to_string())));
    assert_eq!(parse("for (i=0 i<3; i) x;"), Err(ParseError::Syntax("i<3; i) x;".to_string())));
}

#[test]
fn for_header_needs_close_parenthesis() {
    assert_eq!(parse("for (;; i = i + 1 x;"), Err(ParseError::Syntax("x;".to_string())));
}
