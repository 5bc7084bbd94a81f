use calculator::ast::{AstNode, BinaryOperator, Numeral, UnaryOperator};
use calculator::balance::balance_parentheses;
use calculator::parser::{parse_tokens, ParseError, Parser};
use calculator::token::Tokens;
use calculator::tokenizer::{scan_line, ScanError, Tokenizer};
use calculator::{compile, CalcError};

fn value(node: &AstNode) -> f32 {
    match node {
        AstNode::Number(Numeral::Decimal { literal }) => {
            literal.iter().collect::<String>().parse().unwrap()
        }
        AstNode::Number(Numeral::Pi) => std::f32::consts::PI,
        AstNode::Number(Numeral::E) => std::f32::consts::E,
        AstNode::UnaryOp { op, operand } => {
            let v = value(operand);
            match op {
                UnaryOperator::Sin => v.sin(),
                UnaryOperator::Cos => v.cos(),
                UnaryOperator::Tan => v.tan(),
                UnaryOperator::Sqrt => v.sqrt(),
                UnaryOperator::Exp => v.exp(),
            }
        }
        AstNode::BinaryOp { op, left, right } => {
            let (l, r) = (value(left), value(right));
            match op {
                BinaryOperator::Add => l + r,
                BinaryOperator::Subtract => l - r,
                BinaryOperator::Multiply => l * r,
                BinaryOperator::Divide => l / r,
                BinaryOperator::Power => l.powf(r),
            }
        }
    }
}

fn run(line: &str) -> f32 {
    value(&compile(line).unwrap())
}

fn number(text: &str) -> Tokens {
    Tokens::Number { literal: text.chars().collect() }
}

fn leaf(text: &str) -> Box<AstNode> {
    Box::new(AstNode::Number(Numeral::Decimal { literal: text.chars().collect() }))
}

#[test]
fn multiplication_binds_tighter_than_addition() {
    assert_eq!(run("2+3*4"), 14.0);
    assert_eq!(run("(2+3)*4"), 20.0);
}

#[test]
fn power_chain_groups_to_the_left() {
    assert_eq!(run("2^3^2"), 64.0);
    let tree = compile("2^3^2").unwrap();
    let expected = AstNode::BinaryOp {
        op: BinaryOperator::Power,
        left: Box::new(AstNode::BinaryOp {
            op: BinaryOperator::Power,
            left: leaf("2"),
            right: leaf("3"),
        }),
        right: leaf("2"),
    };
    assert_eq!(tree, expected);
}

#[test]
fn function_applies_to_the_next_atom_only() {
    assert_eq!(run("sin 0+1"), 1.0);
    let tree = compile("sin 0+1").unwrap();
    let expected = AstNode::BinaryOp {
        op: BinaryOperator::Add,
        left: Box::new(AstNode::UnaryOp { op: UnaryOperator::Sin, operand: leaf("0") }),
        right: leaf("1"),
    };
    assert_eq!(tree, expected);
}

#[test]
fn negative_literals_and_binary_minus() {
    assert_eq!(run("-5+3"), -2.0);
    assert_eq!(run("3-5"), -2.0);
    assert_eq!(run("(-5)"), -5.0);
    assert_eq!(run("3--5"), 8.0);
    assert_eq!(scan_line("3--5").unwrap(), vec![number("3"), Tokens::Minus, number("-5")]);
    assert_eq!(scan_line("-5+3").unwrap(), vec![number("-5"), Tokens::Plus, number("3")]);
}

#[test]
fn minus_after_a_space_is_binary() {
    assert_eq!(scan_line("3 -5").unwrap(), vec![number("3"), Tokens::Minus, number("5")]);
}

#[test]
fn decimal_is_one_number_token() {
    assert_eq!(scan_line("3.14").unwrap(), vec![number("3.14")]);
    assert_eq!(run("3.14"), 3.14);
    assert_eq!(scan_line("-2.5*2").unwrap(), vec![number("-2.5"), Tokens::Multiply, number("2")]);
}

#[test]
fn constants_pi_and_e() {
    assert_eq!(run("pi"), std::f32::consts::PI);
    assert!((run("pi") - 3.14159265).abs() < 1e-6);
    assert_eq!(run("e"), std::f32::consts::E);
}

#[test]
fn keywords_ignore_case() {
    assert_eq!(scan_line("SQRT Pi E").unwrap(), vec![Tokens::Sqrt, Tokens::Pi, Tokens::E]);
    assert_eq!(
        scan_line("sin cos tan exp").unwrap(),
        vec![Tokens::Sin, Tokens::Cos, Tokens::Tan, Tokens::Exp]
    );
    assert_eq!(run("sqrt 16"), 4.0);
}

#[test]
fn unknown_identifier_is_a_scan_error() {
    assert_eq!(
        compile("foo(1)"),
        Err(CalcError::Scan(ScanError::UnknownIdentifier { first: 'f', position: 0 }))
    );
    assert_eq!(
        scan_line("2+sinx"),
        Err(ScanError::UnknownIdentifier { first: 's', position: 2 })
    );
}

#[test]
fn trailing_operator_is_a_parse_error() {
    assert_eq!(compile("2+"), Err(CalcError::Parse(ParseError::ExpectedAtom { position: 2 })));
    assert_eq!(compile("2*)"), Err(CalcError::Parse(ParseError::ExpectedAtom { position: 2 })));
}

#[test]
fn division_by_zero_is_infinite() {
    assert_eq!(run("1/0"), f32::INFINITY);
}

#[test]
fn square_root_of_negative_is_nan() {
    assert!(run("sqrt(-4)").is_nan());
}

#[test]
fn unexpected_character() {
    assert_eq!(scan_line("2 & 3"), Err(ScanError::UnexpectedChar { found: '&', position: 2 }));
    assert_eq!(scan_line("-"), Err(ScanError::UnexpectedChar { found: '-', position: 0 }));
}

#[test]
fn misplaced_decimal_point() {
    assert_eq!(scan_line(".5"), Err(ScanError::MisplacedDecimalPoint { position: 0 }));
    assert_eq!(scan_line("1.2.3"), Err(ScanError::MisplacedDecimalPoint { position: 3 }));
    assert_eq!(scan_line("(2).5"), Err(ScanError::MisplacedDecimalPoint { position: 3 }));
}

#[test]
fn missing_right_parenthesis() {
    assert_eq!(
        compile("(2+3"),
        Err(CalcError::Parse(ParseError::ExpectedRightParen { position: 4 }))
    );
}

#[test]
fn empty_line_is_a_parse_error() {
    assert_eq!(scan_line("  \t").unwrap(), vec![]);
    assert_eq!(compile(""), Err(CalcError::Parse(ParseError::ExpectedAtom { position: 0 })));
}

#[test]
fn tokens_after_the_expression_are_not_read() {
    assert_eq!(run("2 3"), 2.0);
    assert_eq!(run("5%2"), 5.0);
}

#[test]
fn parser_cursor_stops_after_the_expression() {
    let tokens = vec![number("1"), Tokens::Plus, number("2"), Tokens::RightParen];
    let mut parser = Parser::new(tokens);
    let tree = parser.parse().unwrap();
    assert_eq!(parser.position, 3);
    assert_eq!(
        tree,
        AstNode::BinaryOp { op: BinaryOperator::Add, left: leaf("1"), right: leaf("2") }
    );
}

#[test]
fn parse_tokens_of_empty_sequence_fails() {
    assert_eq!(parse_tokens(vec![]), Err(ParseError::ExpectedAtom { position: 0 }));
}

#[test]
fn tokenizer_cursor_methods() {
    let mut t = Tokenizer::new("ab");
    assert_eq!(t.peek_char(), 'a');
    t.read_char();
    assert_eq!(t.current_char, 'a');
    assert_eq!(t.position, 0);
    assert_eq!(t.read_position, 1);
    assert_eq!(t.peek_char(), 'b');
    t.read_char();
    assert_eq!(t.peek_char(), '\0');
}

#[test]
fn tokenizer_collects_tokens() {
    let mut t = Tokenizer::new("(1 + 2) ^ 3");
    assert_eq!(t.tokenize(), Ok(()));
    assert_eq!(
        t.tokens,
        vec![
            Tokens::LeftParen,
            number("1"),
            Tokens::Plus,
            number("2"),
            Tokens::RightParen,
            Tokens::Power,
            number("3")
        ]
    );
}

#[test]
fn balancing_adds_missing_parentheses() {
    let open: Vec<char> = "(2+(3".chars().collect();
    assert_eq!(balance_parentheses(&open).iter().collect::<String>(), "(2+(3))");
    let close: Vec<char> = "2)*3)".chars().collect();
    assert_eq!(balance_parentheses(&close).iter().collect::<String>(), "((2)*3)");
    let even: Vec<char> = "(1)".chars().collect();
    assert_eq!(balance_parentheses(&even).iter().collect::<String>(), "(1)");
}

#[test]
fn minus_after_modulo_starts_a_negative_number() {
    assert_eq!(
        scan_line("5%-3").unwrap(),
        vec![number("5"), Tokens::Modulo, number("-3")]
    );
    assert_eq!(scan_line("5%- 3"), Err(ScanError::UnexpectedChar { found: '-', position: 2 }));
}

#[test]
fn read_char_at_end_of_line_gives_nul_and_advances() {
    let mut t = Tokenizer::new("a");
    t.read_char();
    assert_eq!(t.current_char, 'a');
    t.read_char();
    assert_eq!(t.current_char, '\0');
    assert_eq!(t.position, 1);
    assert_eq!(t.read_position, 2);
    assert_eq!(t.peek_char(), '\0');
    assert_eq!(t.tokenize(), Ok(()));
    assert!(t.tokens.is_empty());
}
