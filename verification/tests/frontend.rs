use kaleido_front::lexer::{get_id, is_identifier, Token, Tokenizer};
use kaleido_front::parser::{ExprAST, Parser};

pub fn id_tok(s: &str) -> Token {
    Token::Identifier { id: String::from(s) }
}

pub fn num_tok(v: f64) -> Token {
    Token::Number { text: format!("{}", v) }
}

fn num_ast(v: f64) -> Box<ExprAST> {
    Box::new(ExprAST::NumberExprAST { val: format!("{}", v) })
}

fn test_input_ast(input: &str, expected_ast: Option<Box<ExprAST>>) {
    let lexer = Tokenizer::new(input.as_bytes().to_vec());
    let mut parser = Parser::new(lexer);
    let ast_result_opt = parser.parse_expression();
    assert!(compare_ast_opts(ast_result_opt, expected_ast));
}

fn compare_ast_opts(
    ast_result_opt: Option<Box<ExprAST>>,
    ast_expected_opt: Option<Box<ExprAST>>,
) -> bool {
    if let Some(ast_expected) = ast_expected_opt {
        let Some(ast_result) = ast_result_opt else {
            return false;
        };

        if let ExprAST::NumberExprAST { val: val_expected } = *ast_expected {
            if let ExprAST::NumberExprAST { val: val_result } = *ast_result {
                let expected: f64 = val_expected.parse().unwrap();
                let result: f64 = val_result.parse().unwrap();
                return (expected - result).abs() < 1e-7;
            } else {
                return false;
            }
        } else if let ExprAST::VariableExprAST { name: name_expected } = *ast_expected {
            if let ExprAST::VariableExprAST { name: name_result } = *ast_result {
                return name_expected == name_result;
            } else {
                return false;
            }
        } else if let ExprAST::BinaryExprAST {
            op: op_expected,
            lhs: lhs_expected,
            rhs: rhs_expected,
        } = *ast_expected
        {
            if let ExprAST::BinaryExprAST { op: op_result, lhs: lhs_result, rhs: rhs_result } =
                *ast_result
            {
                return op_expected == op_result
                    && compare_ast_opts(Some(lhs_expected), Some(lhs_result))
                    && compare_ast_opts(Some(rhs_expected), Some(rhs_result));
            } else {
                return false;
            }
        } else if let ExprAST::PrototypeAST { name: name_expected, args: args_expected } =
            *ast_expected
        {
            if let ExprAST::PrototypeAST { name: name_result, args: args_result } = *ast_result {
                return name_expected == name_result && args_expected == args_result;
            } else {
                return false;
            }
        } else if let ExprAST::FunctionAST { proto: proto_expected, body: body_expected } =
            *ast_expected
        {
            if let ExprAST::FunctionAST { proto: proto_result, body: body_result } = *ast_result {
                return compare_ast_opts(Some(proto_result), Some(proto_expected))
                    && compare_ast_opts(Some(body_result), Some(body_expected));
            } else {
                return false;
            }
        } else if let ExprAST::CallExprAST { callee: callee_expected, args: args_expected } =
            *ast_expected
        {
            if let ExprAST::CallExprAST { callee: callee_result, args: args_result } = *ast_result {
                if callee_expected != callee_result || args_expected.len() != args_result.len() {
                    return false;
                }

                for (arg_expected, arg_result) in
                    args_expected.into_iter().zip(args_result.into_iter())
                {
                    if !compare_ast_opts(Some(arg_expected), Some(arg_result)) {
                        return false;
                    }
                }

                return true;
            } else {
                return false;
            }
        } else {
            unreachable!();
        }
    } else {
        return ast_result_opt.is_none();
    }
}

#[test]
pub fn test_read() {
    let source = r#"
                def fib(x)
                    if x < 3 then
                        1
                    else
                        fib(x - 1) + fib(x - 2)
            "#;
    let mut tokenizer = Tokenizer::new(source.as_bytes().to_vec());
    let expected = [
        Token::Def,
        id_tok("fib"),
        id_tok("("),
        id_tok("x"),
        id_tok(")"),
        id_tok("if"),
        id_tok("x"),
        id_tok("<"),
        num_tok(3.0),
        id_tok("then"),
        num_tok(1.0),
        id_tok("else"),
        id_tok("fib"),
        id_tok("("),
        id_tok("x"),
        id_tok("-"),
        num_tok(1.0),
        id_tok(")"),
        id_tok("+"),
        id_tok("fib"),
        id_tok("("),
        id_tok("x"),
        id_tok("-"),
        num_tok(2.0),
        id_tok(")"),
        Token::Eof,
    ];

    for exp in expected {
        let last_token = tokenizer.last_token();
        println!("last_token: {:?}", last_token);
        assert_eq!(exp, last_token);
        tokenizer.next();
    }
}

#[test]
pub fn test_ast_single() {
    {
        let inp = "5";
        let expected_ast = num_ast(5 as f64);
        println!("comparing ast");
        test_input_ast(inp, Some(expected_ast));
        println!("ast compared");
    }

    {
        let inp = "var";
        let expected_ast = Box::new(ExprAST::VariableExprAST { name: String::from("var") });
        test_input_ast(inp, Some(expected_ast));
    }
}

#[test]
pub fn test_ast_simple() {
    let num = "5 + 6";
    let expected_ast = Box::new(ExprAST::BinaryExprAST {
        op: String::from("+"),
        lhs: num_ast(5 as f64),
        rhs: num_ast(6 as f64),
    });
    test_input_ast(num, Some(expected_ast));
}

#[test]
pub fn test_ast_long_arithmetic() {
    let long_arithmetic = "5 + (6 + 7) * 8";
    let expected_ast = Box::new(ExprAST::BinaryExprAST {
        op: String::from("+"),
        lhs: num_ast(5_f64),
        rhs: Box::new(ExprAST::BinaryExprAST {
            op: String::from("*"),
            lhs: Box::new(ExprAST::BinaryExprAST {
                op: String::from("+"),
                lhs: num_ast(6_f64),
                rhs: num_ast(7_f64),
            }),
            rhs: num_ast(8_f64),
        }),
    });
    test_input_ast(long_arithmetic, Some(expected_ast));
}

#[test]
pub fn test_ast_with_variables() {
    let long_arithmetic = "5 + (var + 7) * k";
    let expected_ast = Box::new(ExprAST::BinaryExprAST {
        op: String::from("+"),
        lhs: num_ast(5_f64),
        rhs: Box::new(ExprAST::BinaryExprAST {
            op: String::from("*"),
            lhs: Box::new(ExprAST::BinaryExprAST {
                op: String::from("+"),
                lhs: Box::new(ExprAST::VariableExprAST { name: String::from("var") }),
                rhs: num_ast(7_f64),
            }),
            rhs: Box::new(ExprAST::VariableExprAST { name: String::from("k") }),
        }),
    });
    test_input_ast(long_arithmetic, Some(expected_ast));
}

fn tokens_of(input: &str) -> Vec<Token> {
    let mut tokenizer = Tokenizer::new(input.as_bytes().to_vec());
    let mut out = Vec::new();
    loop {
        let t = tokenizer.last_token();
        let done = t == Token::Eof;
        out.push(t);
        if done {
            return out;
        }
        tokenizer.next();
    }
}

#[test]
fn test_comment_transparency() {
    let with_comment = tokens_of("5 # comment\n6");
    let without = tokens_of("5\n6");
    assert_eq!(with_comment, without);
    assert_eq!(with_comment, vec![num_tok(5.0), num_tok(6.0), Token::Eof]);
}

#[test]
fn test_comment_at_end_of_input() {
    assert_eq!(tokens_of("5 # trailing"), vec![num_tok(5.0), Token::Eof]);
    assert_eq!(tokens_of("# only a comment"), vec![Token::Eof]);
}

#[test]
fn test_tokens_empty_and_whitespace() {
    assert_eq!(tokens_of(""), vec![Token::Eof]);
    assert_eq!(tokens_of(" \t\n "), vec![Token::Eof]);
}

#[test]
fn test_token_decimal_and_operators() {
    assert_eq!(
        tokens_of("2.5*x"),
        vec![
            Token::Number { text: String::from("2.5") },
            id_tok("*"),
            id_tok("x"),
            Token::Eof,
        ]
    );
    assert_eq!(tokens_of("+"), vec![id_tok("+"), Token::Eof]);
}

#[test]
fn test_token_keywords_and_words() {
    assert_eq!(
        tokens_of("extern def defs ab1"),
        vec![Token::Extern, Token::Def, id_tok("defs"), id_tok("ab1"), Token::Eof]
    );
}

#[test]
fn test_malformed_trailing_operator() {
    // a trailing operator with no right-hand side fails, yielding no tree
    let lexer = Tokenizer::new("5 +".as_bytes().to_vec());
    let mut parser = Parser::new(lexer);
    assert!(parser.parse_expression().is_none());
}

#[test]
fn test_missing_close_paren() {
    let lexer = Tokenizer::new("(5".as_bytes().to_vec());
    let mut parser = Parser::new(lexer);
    assert!(parser.parse_expression().is_none());
}

#[test]
fn test_expression_on_keyword_fails() {
    let lexer = Tokenizer::new("def".as_bytes().to_vec());
    let mut parser = Parser::new(lexer);
    assert!(parser.parse_expression().is_none());
}

#[test]
fn test_nested_parens() {
    test_input_ast("((5))", Some(num_ast(5.0)));
}

#[test]
fn test_left_associativity() {
    let expected_ast = Box::new(ExprAST::BinaryExprAST {
        op: String::from("-"),
        lhs: Box::new(ExprAST::BinaryExprAST {
            op: String::from("-"),
            lhs: num_ast(5.0),
            rhs: num_ast(1.0),
        }),
        rhs: num_ast(2.0),
    });
    test_input_ast("5 - 1 - 2", Some(expected_ast));
}

#[test]
fn test_less_than_binds_loosest() {
    let expected_ast = Box::new(ExprAST::BinaryExprAST {
        op: String::from("<"),
        lhs: num_ast(1.0),
        rhs: Box::new(ExprAST::BinaryExprAST {
            op: String::from("+"),
            lhs: num_ast(2.0),
            rhs: num_ast(3.0),
        }),
    });
    test_input_ast("1 < 2 + 3", Some(expected_ast));
}

#[test]
fn test_zero_argument_call() {
    let expected_ast = Box::new(ExprAST::CallExprAST {
        callee: String::from("f"),
        args: Vec::new(),
    });
    test_input_ast("f()", Some(expected_ast));
}

#[test]
fn test_call_with_arguments() {
    let expected_ast = Box::new(ExprAST::CallExprAST {
        callee: String::from("f"),
        args: vec![
            num_ast(1.0),
            Box::new(ExprAST::VariableExprAST { name: String::from("x") }),
        ],
    });
    test_input_ast("f(1, x)", Some(expected_ast));
}

#[test]
fn test_top_level_expression_is_wrapped() {
    let lexer = Tokenizer::new("5 + 6".as_bytes().to_vec());
    let mut parser = Parser::new(lexer);
    let expected_ast = Box::new(ExprAST::FunctionAST {
        proto: Box::new(ExprAST::PrototypeAST {
            name: String::from("__anon_expr"),
            args: Vec::new(),
        }),
        body: Box::new(ExprAST::BinaryExprAST {
            op: String::from("+"),
            lhs: num_ast(5.0),
            rhs: num_ast(6.0),
        }),
    });
    let result = parser.parse_top_level_expr();
    assert!(compare_ast_opts(result, Some(expected_ast)));
}

#[test]
fn test_parse_drives_to_end_of_input() {
    // definitions, externs and bare expressions, with a syntax error in the
    // middle: the driver still consumes the whole input and terminates
    let lexer = Tokenizer::new(
        "def f(a b) a + b extern sin(x) 1 + 2 def ) broken f(1)".as_bytes().to_vec(),
    );
    let mut parser = Parser::new(lexer);
    parser.parse();
}

#[test]
fn test_is_identifier_and_get_id() {
    let tok = id_tok("hello");
    assert!(is_identifier(&tok));
    assert_eq!(get_id(&tok), String::from("hello"));
    assert!(!is_identifier(&Token::Def));
    assert!(!is_identifier(&num_tok(1.0)));
}

fn render_tokens(tokens: &[Token]) -> String {
    let mut out = String::new();
    for t in tokens {
        let piece = match t {
            Token::Eof => String::new(),
            Token::Def => String::from("def"),
            Token::Extern => String::from("extern"),
            Token::Identifier { id } => id.clone(),
            Token::Number { text } => text.clone(),
        };
        out.push_str(&piece);
        out.push(' ');
    }
    out
}

fn parse_expr(input: &str) -> Option<Box<ExprAST>> {
    let lexer = Tokenizer::new(input.as_bytes().to_vec());
    let mut parser = Parser::new(lexer);
    parser.parse_expression()
}

#[test]
fn test_serialize_tokens_exactly() {
    let tree = parse_expr("5 + 6").unwrap();
    let tokens = kaleido_front::parser::unparse_tokens(&tree);
    assert_eq!(
        tokens,
        vec![id_tok("("), num_tok(5.0), id_tok("+"), num_tok(6.0), id_tok(")")]
    );
}

#[test]
fn test_serialize_reparse_roundtrip() {
    // parsing the canonical re-serialization yields a structurally
    // identical tree
    let source = "5 + (6 + 7) * f(8, x) < g()";
    let tree = parse_expr(source).unwrap();
    let tokens = kaleido_front::parser::unparse_tokens(&tree);
    let text = render_tokens(&tokens);
    let reparsed = parse_expr(&text);
    let tree_again = parse_expr(source);
    assert!(compare_ast_opts(reparsed, tree_again));
}
