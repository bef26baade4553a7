use minic_front::parser::{AstNode, Parser};
use minic_front::tokenizer::{Token, TokenType, Tokenizer};

fn atom(text: &str) -> AstNode {
    AstNode::Atom(Token::new(TokenType::Value, text.to_string()))
}

fn list(children: Vec<AstNode>) -> AstNode {
    AstNode::List(children)
}

fn value(text: &str) -> Token {
    Token::new(TokenType::Value, text.to_string())
}

fn punct(text: &str) -> Token {
    Token::new(TokenType::Punctuation, text.to_string())
}

fn eof() -> Token {
    Token::new(TokenType::EOF, String::new())
}

fn parse_text(input: &str) -> AstNode {
    let tokens = Tokenizer::new(input).tokenize().unwrap();
    Parser::new(&tokens).parse().unwrap()
}

#[test]
fn test_parser_two_statements() {
    let tokens = vec![
        Token::new(TokenType::Value, "int".to_string()),
        Token::new(TokenType::Value, "main".to_string()),
        Token::new(TokenType::Punctuation, "(".to_string()),
        Token::new(TokenType::Punctuation, ")".to_string()),
        Token::new(TokenType::Punctuation, "{".to_string()),
        Token::new(TokenType::Value, "int".to_string()),
        Token::new(TokenType::Value, "a".to_string()),
        Token::new(TokenType::Value, "=".to_string()),
        Token::new(TokenType::Value, "10".to_string()),
        Token::new(TokenType::Punctuation, ";".to_string()),
        Token::new(TokenType::Value, "return".to_string()),
        Token::new(TokenType::Value, "0".to_string()),
        Token::new(TokenType::Punctuation, ";".to_string()),
        Token::new(TokenType::Punctuation, "}".to_string()),
        Token::new(TokenType::EOF, String::new()),
    ];

    let ast = Parser::new(&tokens).parse().unwrap();
    println!("{}", ast.render());

    // Expected structure: (int main () (int a = 10 return 0))
    if let AstNode::List(root) = ast {
        assert_eq!(root.len(), 4); // int, main, params, and body list

        // Check function signature
        if let AstNode::Atom(token) = &root[0] {
            assert_eq!(token.lexeme, "int");
        }
        if let AstNode::Atom(token) = &root[1] {
            assert_eq!(token.lexeme, "main");
        }

        // Check args
        if let AstNode::List(list) = &root[2] {
            assert_eq!(list.len(), 0);
        }

        // Check body
        if let AstNode::List(body) = &root[3] {
            assert_eq!(body.len(), 2); // Two statements

            // Check first statement: int a = 10
            if let AstNode::List(statement) = &body[0] {
                assert_eq!(statement.len(), 4);
                if let AstNode::Atom(token) = &statement[0] {
                    assert_eq!(token.lexeme, "int");
                }
                if let AstNode::Atom(token) = &statement[1] {
                    assert_eq!(token.lexeme, "a");
                }
                if let AstNode::Atom(token) = &statement[2] {
                    assert_eq!(token.lexeme, "=");
                }
                if let AstNode::Atom(token) = &statement[3] {
                    assert_eq!(token.lexeme, "10");
                }
            }

            // Check second statement: return 0
            if let AstNode::List(statement) = &body[1] {
                assert_eq!(statement.len(), 2);
                if let AstNode::Atom(token) = &statement[0] {
                    assert_eq!(token.lexeme, "return");
                }
                if let AstNode::Atom(token) = &statement[1] {
                    assert_eq!(token.lexeme, "0");
                }
            }
        }
    } else {
        panic!("Root node should be a List");
    }
}

#[test]
fn test_parser_simple() {
    let tokens = vec![
        Token::new(TokenType::Value, "int".to_string()),
        Token::new(TokenType::Value, "main".to_string()),
        Token::new(TokenType::Punctuation, "(".to_string()),
        Token::new(TokenType::Punctuation, ")".to_string()),
        Token::new(TokenType::Punctuation, "{".to_string()),
        Token::new(TokenType::Value, "return".to_string()),
        Token::new(TokenType::Value, "0".to_string()),
        Token::new(TokenType::Punctuation, ";".to_string()),
        Token::new(TokenType::Punctuation, "}".to_string()),
        Token::new(TokenType::EOF, String::new()),
    ];

    let ast = Parser::new(&tokens).parse().unwrap();
    println!("{}", ast.render());

    // Expected structure: (int main () (return 0))
    if let AstNode::List(root) = ast {
        assert_eq!(root.len(), 4); // int, main, and body list

        if let AstNode::Atom(token) = &root[0] {
            assert_eq!(token.lexeme, "int");
        }
        if let AstNode::Atom(token) = &root[1] {
            assert_eq!(token.lexeme, "main");
        }

        if let AstNode::List(list) = &root[2] {
            assert_eq!(list.len(), 0);
        }

        if let AstNode::List(body) = &root[3] {
            assert_eq!(body.len(), 1); // One statement

            if let AstNode::List(statement) = &body[0] {
                assert_eq!(statement.len(), 2);
                if let AstNode::Atom(token) = &statement[0] {
                    assert_eq!(token.lexeme, "return");
                }
                if let AstNode::Atom(token) = &statement[1] {
                    assert_eq!(token.lexeme, "0");
                }
            }
        }
    } else {
        panic!("Root node should be a List");
    }
}

#[test]
fn test_parse_with_func_call() {
    let tokens = vec![
        Token::new(TokenType::Value, "int".to_string()),
        Token::new(TokenType::Value, "main".to_string()),
        Token::new(TokenType::Punctuation, "(".to_string()),
        Token::new(TokenType::Punctuation, ")".to_string()),
        Token::new(TokenType::Punctuation, "{".to_string()),
        Token::new(TokenType::Value, "int".to_string()),
        Token::new(TokenType::Value, "a".to_string()),
        Token::new(TokenType::Value, "=".to_string()),
        Token::new(TokenType::Value, "10".to_string()),
        Token::new(TokenType::Punctuation, ";".to_string()),
        Token::new(TokenType::Value, "int".to_string()),
        Token::new(TokenType::Value, "b".to_string()),
        Token::new(TokenType::Value, "=".to_string()),
        Token::new(TokenType::Value, "test".to_string()),
        Token::new(TokenType::Punctuation, "(".to_string()),
        Token::new(TokenType::Punctuation, ")".to_string()),
        Token::new(TokenType::Punctuation, ";".to_string()),
        Token::new(TokenType::Value, "return".to_string()),
        Token::new(TokenType::Value, "0".to_string()),
        Token::new(TokenType::Punctuation, ";".to_string()),
        Token::new(TokenType::Punctuation, "}".to_string()),
        Token::new(TokenType::EOF, String::new()),
    ];

    let ast = Parser::new(&tokens).parse().unwrap();
    println!("{}", ast.render());

    // Expected structure: (int main () (int a = 10 int b = (test) return 0))
    if let AstNode::List(root) = ast {
        assert_eq!(root.len(), 4); // int, main, and body list

        if let AstNode::Atom(token) = &root[0] {
            assert_eq!(token.lexeme, "int");
        }
        if let AstNode::Atom(token) = &root[1] {
            assert_eq!(token.lexeme, "main");
        }

        if let AstNode::List(list) = &root[2] {
            assert_eq!(list.len(), 0);
        }
        if let AstNode::List(body) = &root[3] {
            assert_eq!(body.len(), 3); // Three statements

            // First statement: int a = 10
            if let AstNode::List(statement) = &body[0] {
                assert_eq!(statement.len(), 4);
                if let AstNode::Atom(token) = &statement[0] {
                    assert_eq!(token.lexeme, "int");
                }
                if let AstNode::Atom(token) = &statement[1] {
                    assert_eq!(token.lexeme, "a");
                }
                if let AstNode::Atom(token) = &statement[2] {
                    assert_eq!(token.lexeme, "=");
                }
                if let AstNode::Atom(token) = &statement[3] {
                    assert_eq!(token.lexeme, "10");
                }
            }

            // Second statement: int b = test()
            if let AstNode::List(statement) = &body[1] {
                assert_eq!(statement.len(), 5);
                if let AstNode::Atom(token) = &statement[0] {
                    assert_eq!(token.lexeme, "int");
                }
                if let AstNode::Atom(token) = &statement[1] {
                    assert_eq!(token.lexeme, "b");
                }
                if let AstNode::Atom(token) = &statement[2] {
                    assert_eq!(token.lexeme, "=");
                }
                if let AstNode::Atom(func_name) = &statement[3] {
                    assert_eq!(func_name.lexeme, "test");
                }
                if let AstNode::List(args) = &statement[4] {
                    assert_eq!(args.len(), 0);
                }
            }

            // Third statement: return 0
            if let AstNode::List(statement) = &body[2] {
                assert_eq!(statement.len(), 2);
                if let AstNode::Atom(token) = &statement[0] {
                    assert_eq!(token.lexeme, "return");
                }
                if let AstNode::Atom(token) = &statement[1] {
                    assert_eq!(token.lexeme, "0");
                }
            }
        }
    } else {
        panic!("Root node should be a List");
    }
}

#[test]
fn balanced_grouping_from_text() {
    let ast = parse_text("int main() { return 0; }");
    let expected = list(vec![
        atom("int"),
        atom("main"),
        list(vec![]),
        list(vec![list(vec![atom("return"), atom("0")])]),
    ]);
    assert_eq!(ast, expected);
}

#[test]
fn multi_statement_body() {
    let tokens = vec![
        value("int"),
        value("main"),
        punct("("),
        punct(")"),
        punct("{"),
        value("int"),
        value("a"),
        value("="),
        value("10"),
        punct(";"),
        value("return"),
        value("0"),
        punct(";"),
        punct("}"),
        eof(),
    ];
    let ast = Parser::new(&tokens).parse().unwrap();
    let expected = list(vec![
        atom("int"),
        atom("main"),
        list(vec![]),
        list(vec![
            list(vec![atom("int"), atom("a"), atom("="), atom("10")]),
            list(vec![atom("return"), atom("0")]),
        ]),
    ]);
    assert_eq!(ast, expected);
}

#[test]
fn nested_call_expression() {
    let tokens = vec![
        value("int"),
        value("main"),
        punct("("),
        punct(")"),
        punct("{"),
        value("int"),
        value("b"),
        value("="),
        value("test"),
        punct("("),
        punct(")"),
        punct(";"),
        value("return"),
        value("0"),
        punct(";"),
        punct("}"),
        eof(),
    ];
    let ast = Parser::new(&tokens).parse().unwrap();
    let expected = list(vec![
        atom("int"),
        atom("main"),
        list(vec![]),
        list(vec![
            list(vec![atom("int"), atom("b"), atom("="), atom("test"), list(vec![])]),
            list(vec![atom("return"), atom("0")]),
        ]),
    ]);
    assert_eq!(ast, expected);
}

#[test]
fn empty_input_gives_an_empty_root() {
    let tokens = Tokenizer::new("").tokenize().unwrap();
    assert_eq!(tokens.len(), 1);
    let ast = Parser::new(&tokens).parse().unwrap();
    assert_eq!(ast, list(vec![]));
}

#[test]
fn no_tokens_at_all_give_an_empty_root() {
    let tokens: Vec<Token> = Vec::new();
    let ast = Parser::new(&tokens).parse().unwrap();
    assert_eq!(ast, list(vec![]));
}

#[test]
fn terminated_statements_are_wrapped() {
    let ast = parse_text("a b; c;");
    assert_eq!(ast, list(vec![list(vec![atom("a"), atom("b")]), list(vec![atom("c")])]));
}

#[test]
fn an_unterminated_statement_at_the_end_is_spliced() {
    let ast = parse_text("a; b c");
    assert_eq!(ast, list(vec![list(vec![atom("a")]), atom("b"), atom("c")]));
}

#[test]
fn an_unterminated_statement_before_a_closer_is_spliced() {
    let ast = parse_text("{ a; b c }");
    assert_eq!(ast, list(vec![list(vec![list(vec![atom("a")]), atom("b"), atom("c")])]));
}

#[test]
fn an_empty_statement_is_an_empty_list() {
    let ast = parse_text(";;");
    assert_eq!(ast, list(vec![list(vec![]), list(vec![])]));
}

#[test]
fn any_closer_closes_any_opener() {
    let ast = parse_text("( a } { b )");
    assert_eq!(ast, list(vec![list(vec![atom("a")]), list(vec![atom("b")])]));
}

#[test]
fn nesting_goes_as_deep_as_the_brackets() {
    let ast = parse_text("((()))");
    assert_eq!(ast, list(vec![list(vec![list(vec![list(vec![])])])]));
}

#[test]
fn a_nesting_joins_the_statement_it_stands_in() {
    let ast = parse_text("f(x) g; h");
    assert_eq!(
        ast,
        list(vec![
            list(vec![atom("f"), list(vec![atom("x")]), atom("g")]),
            atom("h"),
        ])
    );
}

#[test]
fn atoms_of_the_tree_are_values_with_the_tokens_text() {
    let tokens = vec![value("x"), eof()];
    let ast = Parser::new(&tokens).parse().unwrap();
    match ast {
        AstNode::List(root) => {
            assert_eq!(root.len(), 1);
            match &root[0] {
                AstNode::Atom(token) => {
                    assert_eq!(token.token_type, TokenType::Value);
                    assert_eq!(token.lexeme, "x");
                }
                AstNode::List(_) => panic!("an atom was expected"),
            }
        }
        AstNode::Atom(_) => panic!("Root node should be a List"),
    }
}

#[test]
fn unknown_punctuation_is_passed_over() {
    let tokens = vec![value("a"), punct(","), value("b"), punct("(("), punct(""), punct(";"), eof()];
    let ast = Parser::new(&tokens).parse().unwrap();
    assert_eq!(ast, list(vec![list(vec![atom("a"), atom("b")])]));
}

#[test]
fn unknown_punctuation_inside_a_nesting_is_passed_over() {
    let tokens =
        vec![punct("("), value("a"), punct(","), value("b"), punct(")"), punct(";"), eof()];
    let ast = Parser::new(&tokens).parse().unwrap();
    assert_eq!(ast, list(vec![list(vec![list(vec![atom("a"), atom("b")])])]));
}

#[test]
fn a_closer_outside_any_nesting_is_passed_over() {
    let ast = parse_text("a ) b } ;");
    assert_eq!(ast, list(vec![list(vec![atom("a"), atom("b")])]));
}

#[test]
fn tokens_without_a_sentinel_keep_only_complete_statements() {
    let tokens = vec![value("a"), punct(";"), value("b")];
    let ast = Parser::new(&tokens).parse().unwrap();
    assert_eq!(ast, list(vec![list(vec![atom("a")])]));
}

#[test]
fn an_unclosed_nesting_ends_without_error() {
    let tokens = vec![value("a"), punct(";"), punct("("), value("b"), eof()];
    let mut parser = Parser::new(&tokens);
    let ast = parser.parse();
    assert_eq!(ast, Ok(list(vec![list(vec![atom("a")])])));
}

#[test]
fn the_sentinel_inside_a_nesting_closes_the_statement() {
    let tokens = vec![punct("("), value("a"), eof(), value("b"), punct(")"), eof()];
    let ast = Parser::new(&tokens).parse().unwrap();
    assert_eq!(ast, list(vec![list(vec![list(vec![atom("a")]), atom("b")])]));
}

#[test]
fn a_sentinel_in_the_middle_splices_and_goes_on() {
    let tokens = vec![value("a"), eof(), value("b"), punct(";"), eof()];
    let ast = Parser::new(&tokens).parse().unwrap();
    assert_eq!(ast, list(vec![atom("a"), list(vec![atom("b")])]));
}

#[test]
fn a_value_token_that_looks_like_a_bracket_is_an_atom() {
    let tokens = vec![value("("), value(";"), eof()];
    let ast = Parser::new(&tokens).parse().unwrap();
    assert_eq!(ast, list(vec![atom("("), atom(";")]));
}

#[test]
fn a_second_parse_finds_nothing_left() {
    let tokens = Tokenizer::new("a;").tokenize().unwrap();
    let mut parser = Parser::new(&tokens);
    assert_eq!(parser.parse().unwrap(), list(vec![list(vec![atom("a")])]));
    assert_eq!(parser.parse().unwrap(), list(vec![]));
}

#[test]
fn a_statement_renders_between_brackets() {
    let statement = list(vec![atom("int"), atom("a"), atom("="), atom("1")]);
    assert_eq!(statement.render(), "(int, a, =, 1)");
}

#[test]
fn an_atom_renders_as_its_text() {
    assert_eq!(atom("return").render(), "return");
}

#[test]
fn empty_and_nested_lists_render() {
    assert_eq!(list(vec![]).render(), "()");
    assert_eq!(list(vec![atom("x")]).render(), "(x)");
    assert_eq!(list(vec![list(vec![]), list(vec![])]).render(), "((), ())");
    assert_eq!(
        parse_text("int main() { return 0; }").render(),
        "(int, main, (), ((return, 0)))"
    );
}
