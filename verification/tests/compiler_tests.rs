use rox::{tokens_are_compilable, Chunk, CompileError, Compiler, OpCode, Token, TokenType, Value, LOCALS_COUNT};

/// Turns source text into tokens, the way the scanner does, ending with `EOF`.
fn scan(source: &str) -> Vec<Token> {
    let chars: Vec<char> = source.chars().collect();
    let mut tokens = Vec::new();
    let mut i = 0;
    let mut line = 1;
    let mut column = 1;
    while i < chars.len() {
        let c = chars[i];
        let start_column = column;
        if c == '\n' {
            line += 1;
            column = 1;
            i += 1;
            continue;
        }
        if c.is_whitespace() {
            i += 1;
            column += 1;
            continue;
        }
        let two: String = chars[i..(i + 2).min(chars.len())].iter().collect();
        let (tt, len) = if c.is_ascii_digit() {
            let mut j = i;
            while j < chars.len() && (chars[j].is_ascii_digit() || chars[j] == '.') {
                j += 1;
            }
            let text: String = chars[i..j].iter().collect();
            (TokenType::Number(text.parse::<f64>().unwrap().to_bits()), j - i)
        } else if c.is_alphabetic() || c == '_' {
            let mut j = i;
            while j < chars.len() && (chars[j].is_alphanumeric() || chars[j] == '_') {
                j += 1;
            }
            let text: String = chars[i..j].iter().collect();
            let tt = match text.as_str() {
                "and" => TokenType::And,
                "class" => TokenType::Class,
                "else" => TokenType::Else,
                "false" => TokenType::False,
                "for" => TokenType::For,
                "fun" => TokenType::Fun,
                "if" => TokenType::If,
                "nil" => TokenType::Nil,
                "or" => TokenType::Or,
                "print" => TokenType::Print,
                "return" => TokenType::Return,
                "super" => TokenType::Super,
                "this" => TokenType::This,
                "true" => TokenType::True,
                "var" => TokenType::Var,
                "while" => TokenType::While,
                _ => TokenType::Identifier(text.clone()),
            };
            (tt, j - i)
        } else if c == '"' {
            let mut j = i + 1;
            while chars[j] != '"' {
                j += 1;
            }
            let text: String = chars[i + 1..j].iter().collect();
            (TokenType::StringLiteral(text), j + 1 - i)
        } else if two == "!=" {
            (TokenType::BangEqual, 2)
        } else if two == "==" {
            (TokenType::EqualEqual, 2)
        } else if two == ">=" {
            (TokenType::GreaterEqual, 2)
        } else if two == "<=" {
            (TokenType::LessEqual, 2)
        } else {
            let tt = match c {
                '(' => TokenType::LeftParen,
                ')' => TokenType::RightParen,
                '{' => TokenType::LeftBrace,
                '}' => TokenType::RightBrace,
                ',' => TokenType::Comma,
                '.' => TokenType::Dot,
                '-' => TokenType::Minus,
                '+' => TokenType::Plus,
                ';' => TokenType::Semicolon,
                '/' => TokenType::Slash,
                '*' => TokenType::Star,
                '!' => TokenType::Bang,
                '=' => TokenType::Equal,
                '>' => TokenType::Greater,
                '<' => TokenType::Less,
                _ => TokenType::Error(format!("Unexpected character '{}'.", c)),
            };
            (tt, 1)
        };
        tokens.push(Token { token_type: tt, line, column: start_column });
        i += len;
        column += len;
    }
    tokens.push(Token { token_type: TokenType::EOF, line, column });
    tokens
}

fn compile_source(source: &str) -> (bool, Compiler) {
    let mut compiler = Compiler::new(Chunk::new(), scan(source));
    let ok = compiler.compile();
    (ok, compiler)
}

fn code_of(source: &str) -> Vec<OpCode> {
    let (ok, compiler) = compile_source(source);
    assert!(ok, "unexpected errors: {:?}", compiler.errors());
    compiler.chunk().code.clone()
}

fn messages(compiler: &Compiler) -> Vec<String> {
    compiler.errors().iter().map(|e| e.message.clone()).collect()
}

fn number(v: f64) -> u64 {
    v.to_bits()
}

use rox::OpCode::{
    OpAdd, OpConstant, OpDefineGlobal, OpDivide, OpEqual, OpFalse, OpGetGlobal, OpGetLocal, OpGreater,
    OpJump, OpJumpIfFalse, OpLess, OpLoop, OpMultiply, OpNegate, OpNil, OpNot, OpPop, OpPrint,
    OpReturn, OpSetGlobal, OpSetLocal, OpSubtract, OpTrue,
};

#[test]
fn empty_program_is_just_a_return() {
    assert_eq!(code_of(""), vec![OpReturn(0)]);
}

#[test]
fn print_sum() {
    let (ok, compiler) = compile_source("print 1 + 2;");
    assert!(ok);
    let chunk = compiler.chunk();
    assert_eq!(chunk.code, vec![OpConstant(0), OpConstant(1), OpAdd, OpPrint, OpReturn(0)]);
    assert_eq!(chunk.lines, vec![1, 1, 1, 1, 1]);
    assert!(matches!(chunk.constants[0], Value::Number(n) if n == number(1.0)));
    assert!(matches!(chunk.constants[1], Value::Number(n) if n == number(2.0)));
}

#[test]
fn factor_binds_tighter_than_term() {
    assert_eq!(
        code_of("1 + 2 * 3;"),
        vec![OpConstant(0), OpConstant(1), OpConstant(2), OpMultiply, OpAdd, OpPop, OpReturn(0)]
    );
}

#[test]
fn same_level_operators_associate_left() {
    assert_eq!(
        code_of("1 - 2 - 3;"),
        vec![OpConstant(0), OpConstant(1), OpSubtract, OpConstant(2), OpSubtract, OpPop, OpReturn(0)]
    );
}

#[test]
fn grouping_overrides_precedence() {
    assert_eq!(
        code_of("(1 + 2) * 3;"),
        vec![OpConstant(0), OpConstant(1), OpAdd, OpConstant(2), OpMultiply, OpPop, OpReturn(0)]
    );
}

#[test]
fn comparisons_are_built_from_three_instructions() {
    assert_eq!(code_of("1 >= 2;")[2..4], [OpLess, OpNot]);
    assert_eq!(code_of("1 <= 2;")[2..4], [OpGreater, OpNot]);
    assert_eq!(code_of("1 != 2;")[2..4], [OpEqual, OpNot]);
    assert_eq!(code_of("1 == 2;")[2..3], [OpEqual]);
    assert_eq!(code_of("1 > 2;")[2..3], [OpGreater]);
    assert_eq!(code_of("1 < 2;")[2..3], [OpLess]);
    assert_eq!(code_of("1 / 2;")[2..3], [OpDivide]);
}

#[test]
fn unary_operators_follow_their_operand() {
    assert_eq!(code_of("-1;"), vec![OpConstant(0), OpNegate, OpPop, OpReturn(0)]);
    assert_eq!(code_of("!true;"), vec![OpTrue, OpNot, OpPop, OpReturn(0)]);
    assert_eq!(code_of("- -1;"), vec![OpConstant(0), OpNegate, OpNegate, OpPop, OpReturn(0)]);
}

#[test]
fn literals() {
    assert_eq!(code_of("true; false; nil;"), vec![OpTrue, OpPop, OpFalse, OpPop, OpNil, OpPop, OpReturn(0)]);
}

#[test]
fn string_literal_becomes_a_constant() {
    let (ok, compiler) = compile_source("print \"hi\";");
    assert!(ok);
    let chunk = compiler.chunk();
    assert_eq!(chunk.code, vec![OpConstant(0), OpPrint, OpReturn(0)]);
    assert!(matches!(&chunk.constants[0], Value::Str(s) if s == "hi"));
}

#[test]
fn global_definition_use_and_assignment() {
    let (ok, compiler) = compile_source("var a = 1; a = 2; print a;");
    assert!(ok);
    let chunk = compiler.chunk();
    assert_eq!(
        chunk.code,
        vec![
            OpConstant(1),
            OpDefineGlobal(0),
            OpConstant(2),
            OpSetGlobal(3),
            OpPop,
            OpGetGlobal(4),
            OpPrint,
            OpReturn(0)
        ]
    );
    for k in [0, 3, 4] {
        assert!(matches!(&chunk.constants[k], Value::Str(s) if s == "a"));
    }
}

#[test]
fn global_without_initializer_is_nil() {
    assert_eq!(code_of("var a;"), vec![OpNil, OpDefineGlobal(0), OpReturn(0)]);
}

#[test]
fn locals_live_in_slots_and_are_popped_at_scope_end() {
    assert_eq!(
        code_of("{ var a = 1; var b = 2; print b; a = b; }"),
        vec![
            OpConstant(0),
            OpConstant(1),
            OpGetLocal(1),
            OpPrint,
            OpGetLocal(1),
            OpSetLocal(0),
            OpPop,
            OpPop,
            OpPop,
            OpReturn(0)
        ]
    );
}

#[test]
fn inner_local_shadows_outer_one() {
    assert_eq!(
        code_of("{ var a = 1; { var a = 2; print a; } print a; }"),
        vec![
            OpConstant(0),
            OpConstant(1),
            OpGetLocal(1),
            OpPrint,
            OpPop,
            OpGetLocal(0),
            OpPrint,
            OpPop,
            OpReturn(0)
        ]
    );
}

#[test]
fn if_else_jumps_are_patched() {
    assert_eq!(
        code_of("if (true) print 1; else print 2;"),
        vec![
            OpTrue,
            OpJumpIfFalse(Some(4)),
            OpPop,
            OpConstant(0),
            OpPrint,
            OpJump(Some(3)),
            OpPop,
            OpConstant(1),
            OpPrint,
            OpReturn(0)
        ]
    );
}

#[test]
fn if_without_else() {
    assert_eq!(
        code_of("if (false) print 1;"),
        vec![OpFalse, OpJumpIfFalse(Some(4)), OpPop, OpConstant(0), OpPrint, OpJump(Some(1)), OpPop, OpReturn(0)]
    );
}

#[test]
fn while_loops_back_to_its_condition() {
    assert_eq!(
        code_of("while (true) print 1;"),
        vec![OpTrue, OpJumpIfFalse(Some(4)), OpPop, OpConstant(0), OpPrint, OpLoop(6), OpPop, OpReturn(0)]
    );
}

#[test]
fn for_loop_with_all_clauses() {
    assert_eq!(
        code_of("for (var i = 0; i < 2; i = i + 1) print i;"),
        vec![
            OpConstant(0),
            OpGetLocal(0),
            OpConstant(1),
            OpLess,
            OpJumpIfFalse(Some(11)),
            OpPop,
            OpJump(Some(6)),
            OpGetLocal(0),
            OpConstant(2),
            OpAdd,
            OpSetLocal(0),
            OpPop,
            OpLoop(12),
            OpGetLocal(0),
            OpPrint,
            OpLoop(9),
            OpPop,
            OpPop,
            OpReturn(0)
        ]
    );
}

#[test]
fn for_loop_without_clauses() {
    assert_eq!(code_of("for (;;) print 1;"), vec![OpConstant(0), OpPrint, OpLoop(3), OpReturn(0)]);
}

#[test]
fn and_short_circuits() {
    assert_eq!(
        code_of("true and false;"),
        vec![OpTrue, OpJumpIfFalse(Some(2)), OpPop, OpFalse, OpPop, OpReturn(0)]
    );
}

#[test]
fn or_short_circuits() {
    assert_eq!(
        code_of("true or false;"),
        vec![OpTrue, OpJumpIfFalse(Some(1)), OpJump(Some(2)), OpPop, OpFalse, OpPop, OpReturn(0)]
    );
}

#[test]
fn missing_semicolon_is_reported_at_the_token_in_view() {
    let (ok, compiler) = compile_source("print 1\n");
    assert!(!ok);
    assert!(compiler.had_error);
    let errors = compiler.errors();
    assert_eq!(errors.len(), 1);
    assert_eq!(errors[0].message, "Expected ';' after value.");
    assert_eq!((errors[0].line, errors[0].column), (2, 1));
}

#[test]
fn errors_are_silenced_until_the_next_statement() {
    let (ok, compiler) = compile_source("print ; print ; var x = ;");
    assert!(!ok);
    assert_eq!(
        messages(&compiler),
        vec![
            "No prefix function parsed for precedence PrecAssign.".to_string(),
            "No prefix function parsed for precedence PrecAssign.".to_string(),
            "No prefix function parsed for precedence PrecAssign.".to_string(),
        ]
    );
}

#[test]
fn local_declared_twice_in_one_scope() {
    let (ok, compiler) = compile_source("{ var a = 1; var a = 2; }");
    assert!(!ok);
    assert_eq!(messages(&compiler), vec!["Already a variable with this name in scope.".to_string()]);
    let e: &CompileError = &compiler.errors()[0];
    assert_eq!((e.line, e.column), (1, 18));
}

#[test]
fn local_read_in_its_own_initializer() {
    let (ok, compiler) = compile_source("{ var a = a; }");
    assert!(!ok);
    assert_eq!(messages(&compiler), vec!["Can't read local variable in its own initializer.".to_string()]);
}

#[test]
fn missing_closing_brace() {
    let (ok, compiler) = compile_source("{ print 1;");
    assert!(!ok);
    assert_eq!(messages(&compiler), vec!["Expect '}' after block.".to_string()]);
}

#[test]
fn missing_parenthesis_after_if() {
    let (ok, compiler) = compile_source("if true) print 1;");
    assert!(!ok);
    assert_eq!(messages(&compiler)[0], "Expect '(' after 'if'.");
}

#[test]
fn error_tokens_are_reported_and_skipped() {
    let (ok, compiler) = compile_source("print 1 @ ;");
    assert!(!ok);
    let errors = compiler.errors();
    assert_eq!(errors[0].message, "Unexpected character '@'.");
    assert_eq!((errors[0].line, errors[0].column), (1, 9));
    assert_eq!(errors.len(), 1);
}

#[test]
fn too_many_locals() {
    let mut source = String::from("{");
    for i in 0..(LOCALS_COUNT + 1) {
        source.push_str(&format!(" var v{} = {};", i, i));
    }
    source.push('}');
    let (ok, compiler) = compile_source(&source);
    assert!(!ok);
    assert_eq!(messages(&compiler), vec!["Too many local variables in function.".to_string()]);
}

#[test]
fn loop_body_too_large() {
    let mut source = String::from("while (true) {");
    for _ in 0..33000 {
        source.push_str(" 1;");
    }
    source.push('}');
    let (ok, compiler) = compile_source(&source);
    assert!(!ok);
    assert_eq!(messages(&compiler), vec!["Loop body too large".to_string()]);
    let code = &compiler.chunk().code;
    assert!(matches!(code[code.len() - 3], OpLoop(n) if n > 65535));
}

#[test]
fn compile_stops_at_the_first_eof() {
    let mut tokens = scan("print 1;");
    tokens.push(Token { token_type: TokenType::Print, line: 2, column: 1 });
    tokens.push(Token { token_type: TokenType::EOF, line: 2, column: 6 });
    let mut compiler = Compiler::new(Chunk::new(), tokens);
    assert!(compiler.compile());
    assert_eq!(compiler.chunk().code, vec![OpConstant(0), OpPrint, OpReturn(0)]);
}

#[test]
fn code_is_appended_to_the_given_chunk() {
    let mut chunk = Chunk::new();
    chunk.write_chunk(OpNil, 7);
    let mut compiler = Compiler::new(chunk, scan("true;"));
    assert!(compiler.compile());
    let chunk = compiler.into_chunk();
    assert_eq!(chunk.code, vec![OpNil, OpTrue, OpPop, OpReturn(0)]);
    assert_eq!(chunk.lines, vec![7, 1, 1, 1]);
}

#[test]
fn lines_follow_the_tokens() {
    let (ok, compiler) = compile_source("print\n1;\nprint 2;");
    assert!(ok);
    assert_eq!(compiler.chunk().lines, vec![2, 2, 3, 3, 3]);
}

#[test]
fn for_loop_with_expression_initializer_and_no_condition() {
    assert_eq!(
        code_of("var i; for (i = 0; ; i = i + 1) print i;"),
        vec![
            OpNil,
            OpDefineGlobal(0),
            OpConstant(1),
            OpSetGlobal(2),
            OpPop,
            OpJump(Some(6)),
            OpGetGlobal(3),
            OpConstant(4),
            OpAdd,
            OpSetGlobal(5),
            OpPop,
            OpLoop(7),
            OpGetGlobal(6),
            OpPrint,
            OpLoop(9),
            OpReturn(0)
        ]
    );
}

#[test]
fn declarations_are_compiled_one_after_another() {
    assert_eq!(code_of("print 1; print 2;"), vec![OpConstant(0), OpPrint, OpConstant(1), OpPrint, OpReturn(0)]);
}

#[test]
fn compile_succeeds_exactly_when_nothing_is_reported() {
    for source in ["print 1;", "print 1", "var a = 1; { var b = a; }", "print (1;", "{ print 1;", "if (true) print 1; else print 2;"] {
        let (ok, compiler) = compile_source(source);
        assert_eq!(ok, compiler.errors().is_empty(), "{}", source);
    }
}

#[test]
fn token_streams_the_compiler_accepts() {
    assert!(tokens_are_compilable(&scan("var x = 1; print x;")));
    assert!(!tokens_are_compilable(&Vec::new()));
    let mut no_eof = scan("print 1;");
    no_eof.pop();
    assert!(!tokens_are_compilable(&no_eof));
    assert!(!tokens_are_compilable(&scan("var 1;")));
    let tokens = vec![
        Token { token_type: TokenType::Var, line: 1, column: 1 },
        Token { token_type: TokenType::Error("Unexpected character '@'.".to_string()), line: 1, column: 5 },
        Token { token_type: TokenType::Identifier("a".to_string()), line: 1, column: 6 },
        Token { token_type: TokenType::Semicolon, line: 1, column: 7 },
        Token { token_type: TokenType::EOF, line: 1, column: 8 },
    ];
    assert!(tokens_are_compilable(&tokens));
}

#[test]
fn clean_programs_compile_without_errors() {
    for source in [
        "var a = 1; { var b = a + 2; print b; } if (a < 2) print a; else print -a;",
        "var i = 0; while (i < 3) i = i + 1; for (var j = 0; j < 2; j = j + 1) { print j and true or false; }",
        "print (1 + 2) * 3 == 9 != !nil;",
    ] {
        let (ok, compiler) = compile_source(source);
        assert!(ok, "{}", source);
        assert!(compiler.errors().is_empty());
    }
}

#[test]
fn finished_code_has_jumps_inside_it() {
    let code = code_of("var i = 0; while (i < 3) { if (i == 1) print i; i = i + 1; }");
    for (at, op) in code.iter().enumerate() {
        match op {
            OpJump(Some(d)) | OpJumpIfFalse(Some(d)) => assert!(at + 1 + d < code.len()),
            OpJump(None) | OpJumpIfFalse(None) => panic!("unpatched jump"),
            OpLoop(o) => assert!(*o >= 1 && *o <= at + 1),
            _ => {}
        }
    }
}

#[test]
fn code_is_still_written_after_a_missing_semicolon() {
    let (ok, compiler) = compile_source("print nil");
    assert!(!ok);
    assert_eq!(compiler.chunk().code, vec![OpNil, OpPrint, OpReturn(0)]);
}

#[test]
fn locals_of_a_loop_and_a_block_are_gone_after_them() {
    let code = code_of("{ var a = 1; for (var i = 0; i < 1; i = i + 1) { var b = i; } var c = 2; c; }");
    let n = code.len();
    assert_eq!(code[n - 5..].to_vec(), vec![OpGetLocal(1), OpPop, OpPop, OpPop, OpReturn(0)]);
}

#[test]
fn refused_local_in_a_full_scope_takes_the_last_local_with_it() {
    let mut source = String::from("{");
    for i in 0..LOCALS_COUNT {
        source.push_str(&format!(" var v{};", i));
    }
    source.push_str(&format!(" {{ var w; }} v{}; }}", LOCALS_COUNT - 1));
    let (ok, compiler) = compile_source(&source);
    assert!(!ok);
    assert_eq!(messages(&compiler), vec!["Too many local variables in function.".to_string()]);
    let code = &compiler.chunk().code;
    assert_eq!(code.len(), LOCALS_COUNT + 1 + 1 + 2 + (LOCALS_COUNT - 1) + 1);
    assert_eq!(code[LOCALS_COUNT], OpNil);
    assert_eq!(code[LOCALS_COUNT + 1], OpPop);
    assert_eq!(code[LOCALS_COUNT + 2], OpGetGlobal(0));
    assert_eq!(code[LOCALS_COUNT + 3], OpPop);
    assert_eq!(code[code.len() - 1], OpReturn(0));
}

#[test]
fn local_assigned_in_its_own_initializer() {
    let (ok, compiler) = compile_source("{ var a = a = 1; }");
    assert!(!ok);
    assert_eq!(messages(&compiler), vec!["Can't read local variable in its own initializer.".to_string()]);
    let code = &compiler.chunk().code;
    assert!(code.contains(&OpSetLocal(0)));
}
