use forth_vm::compiler::{parse_to_program, CompileError, CompileErrorKind, Op};
use forth_vm::floats::float_literals;
use forth_vm::lexer::{tokenize, Token, TokenKind};
use forth_vm::table::Table;
use forth_vm::types::{Num, Type};

fn table_for(tokens: &Vec<Token>) -> Table<u64> {
    let mut floats = Table::new();
    for text in float_literals(tokens) {
        let bits = text.parse::<f64>().unwrap().to_bits();
        floats.insert(text, bits);
    }
    floats
}

fn compile(source: &str) -> Result<Vec<Op>, CompileError> {
    let tokens = tokenize(source).unwrap();
    let floats = table_for(&tokens);
    parse_to_program(&tokens, &floats)
}

fn listing(program: &Vec<Op>) -> String {
    let mut parts: Vec<String> = Vec::new();
    for op in program {
        parts.push(match op {
            Op::PushFloat(bits) => format!("PushFloat({})", f64::from_bits(*bits)),
            other => format!("{:?}", other),
        });
    }
    parts.join(" ")
}

fn failure(source: &str) -> (CompileErrorKind, usize, usize, usize) {
    let e = compile(source).err().unwrap();
    (e.kind, e.token, e.line, e.column)
}

fn jumps_resolved(program: &Vec<Op>) -> bool {
    let n = program.len();
    program.iter().enumerate().all(|(j, op)| match op {
        Op::If(t) | Op::Ifstar(t) | Op::Else(t) | Op::Do(t) | Op::Defword(t) => j < *t && *t < n,
        Op::End(t) | Op::Call(t) => *t < n,
        _ => true,
    })
}

#[test]
fn compile_empty_program() {
    assert_eq!(listing(&compile("").unwrap()), "EndOfProgram");
}

#[test]
fn compile_arithmetic() {
    assert_eq!(
        listing(&compile("2 3 + out").unwrap()),
        "PushInteger(2) PushInteger(3) Add Out EndOfProgram"
    );
}

#[test]
fn compile_every_plain_word() {
    assert_eq!(
        listing(&compile("+ - * / = > < >= <= out dup swap drop over rotate idx").unwrap()),
        "Add Sub Mul Div Eq Gt Lt Gteq Lteq Out Dup Swap Drop Over Rotate Index EndOfProgram"
    );
}

#[test]
fn compile_literals() {
    assert_eq!(
        listing(&compile("1 -2 1.5 true false \"a b\" [1 [2]] @x !x").unwrap()),
        "PushInteger(1) PushInteger(-2) PushFloat(1.5) PushBool(true) PushBool(false) \
         PushStr(\"a b\") PushList([Number(Integer(1)), List([Number(Integer(2))])]) \
         Writevar(\"x\") Readvar(\"x\") EndOfProgram"
    );
}

#[test]
fn compile_integer_too_large_becomes_a_float() {
    let program = compile("9223372036854775808").unwrap();
    assert!(matches!(program[0], Op::PushFloat(b) if b == 9223372036854775808f64.to_bits()));
}

#[test]
fn compile_float_without_its_value_fails() {
    let tokens = tokenize("1 2.5 +").unwrap();
    let e = parse_to_program(&tokens, &Table::new()).err().unwrap();
    assert_eq!(
        e,
        CompileError { kind: CompileErrorKind::UnresolvedFloat, token: 1, line: 1, column: 3 }
    );
    let tokens = tokenize("[1 [2.5]]").unwrap();
    let e = parse_to_program(&tokens, &Table::new()).err().unwrap();
    assert_eq!(
        e,
        CompileError { kind: CompileErrorKind::UnresolvedFloat, token: 0, line: 1, column: 1 }
    );
}

#[test]
fn compile_defvar_takes_the_next_token_as_name() {
    assert_eq!(listing(&compile("defvar x 1 @x").unwrap()), "Defvar(\"x\") PushInteger(1) Writevar(\"x\") EndOfProgram");
    assert_eq!(listing(&compile("defvar if").unwrap()), "Defvar(\"if\") EndOfProgram");
}

#[test]
fn compile_if_end() {
    assert_eq!(
        listing(&compile("1 if 2 out end 3").unwrap()),
        "PushInteger(1) If(4) PushInteger(2) Out End(5) PushInteger(3) EndOfProgram"
    );
    assert_eq!(listing(&compile("if end").unwrap()), "If(1) End(2) EndOfProgram");
}

#[test]
fn compile_if_else_end() {
    assert_eq!(
        listing(&compile("5 0 = if 1 out else 0 out end").unwrap()),
        "PushInteger(5) PushInteger(0) Eq If(7) PushInteger(1) Out Else(9) PushInteger(0) Out \
         End(10) EndOfProgram"
    );
}

#[test]
fn compile_else_if_chain() {
    assert_eq!(
        listing(&compile("1 if 10 else 2 if* 20 else 3 if* 30 else 40 end").unwrap()),
        "PushInteger(1) If(4) PushInteger(10) Else(7) PushInteger(2) Ifstar(8) PushInteger(20) \
         Else(11) PushInteger(3) Ifstar(12) PushInteger(30) Else(13) PushInteger(40) End(14) \
         EndOfProgram"
    );
}

#[test]
fn compile_else_if_closed_by_end() {
    assert_eq!(
        listing(&compile("1 if 10 else 2 if* 20 end").unwrap()),
        "PushInteger(1) If(4) PushInteger(10) Else(7) PushInteger(2) Ifstar(7) PushInteger(20) \
         End(8) EndOfProgram"
    );
}

#[test]
fn compile_while_loop() {
    assert_eq!(
        listing(&compile("while 1 do 2 end").unwrap()),
        "While PushInteger(1) Do(5) PushInteger(2) End(0) EndOfProgram"
    );
    assert_eq!(
        listing(&compile("0 while dup 3 < do 1 + end out").unwrap()),
        "PushInteger(0) While Dup PushInteger(3) Lt Do(9) PushInteger(1) Add End(1) Out \
         EndOfProgram"
    );
}

#[test]
fn compile_nested_constructs() {
    let program = compile("while 1 do 2 if while 0 do end else 3 if 4 end end end").unwrap();
    assert_eq!(
        listing(&program),
        "While PushInteger(1) Do(16) PushInteger(2) If(10) While PushInteger(0) Do(9) End(5) \
         Else(14) PushInteger(3) If(13) PushInteger(4) End(14) End(15) End(0) EndOfProgram"
    );
    assert!(jumps_resolved(&program));
}

#[test]
fn compile_word_definition_and_call() {
    assert_eq!(
        listing(&compile("defword double 2 * return 4 double out").unwrap()),
        "Defword(4) PushInteger(2) Mul Return PushInteger(4) Call(1) Out EndOfProgram"
    );
}

#[test]
fn compile_word_may_call_itself() {
    assert_eq!(
        listing(&compile("defword down dup if 1 - down end return 3 down").unwrap()),
        "Defword(8) Dup If(6) PushInteger(1) Sub Call(1) End(7) Return PushInteger(3) Call(1) \
         EndOfProgram"
    );
}

#[test]
fn compile_redefinition_overwrites() {
    assert_eq!(
        listing(&compile("defword f 1 return f defword f 2 return f").unwrap()),
        "Defword(3) PushInteger(1) Return Call(1) Defword(7) PushInteger(2) Return Call(5) \
         EndOfProgram"
    );
}

#[test]
fn compile_word_named_like_a_number_is_not_callable() {
    assert_eq!(
        listing(&compile("defword 5 return 5").unwrap()),
        "Defword(2) Return PushInteger(5) EndOfProgram"
    );
}

#[test]
fn compile_every_jump_is_resolved() {
    let sources = [
        "1 if 2 end",
        "1 if 2 else 3 end",
        "1 if else end",
        "1 if 10 else 2 if* 20 else 3 if* 30 end",
        "while 1 do end",
        "while while 0 do end 1 do while 0 do end end",
        "defword f while 0 do f end return f",
        "defword f defword g return g return f",
        "1 if defword f return end f",
    ];
    for source in sources {
        let program = compile(source).unwrap();
        assert!(jumps_resolved(&program), "{}", source);
        assert!(matches!(program[program.len() - 1], Op::EndOfProgram));
    }
}

#[test]
fn error_unclosed_if() {
    assert_eq!(failure("if"), (CompileErrorKind::UnclosedIf, 0, 1, 1));
    assert_eq!(failure("1 2\n  if 3"), (CompileErrorKind::UnclosedIf, 2, 2, 3));
    assert_eq!(failure("1 if 2 else 3 if* 4"), (CompileErrorKind::UnclosedElse, 3, 1, 8));
}

#[test]
fn error_unclosed_reports_the_first_opener() {
    assert_eq!(failure("1 if while 1 do"), (CompileErrorKind::UnclosedIf, 1, 1, 3));
    assert_eq!(failure("while 1 if 2"), (CompileErrorKind::UnclosedWhile, 0, 1, 1));
    assert_eq!(failure("defvar x if"), (CompileErrorKind::UnclosedIf, 2, 1, 10));
}

#[test]
fn error_unclosed_else_do_while_word() {
    assert_eq!(failure("1 if 2 else 3"), (CompileErrorKind::UnclosedElse, 3, 1, 8));
    assert_eq!(failure("while 1"), (CompileErrorKind::UnclosedWhile, 0, 1, 1));
    assert_eq!(failure("do 1"), (CompileErrorKind::UnclosedDo, 0, 1, 1));
    assert_eq!(failure("defword f 1"), (CompileErrorKind::UnclosedWord, 0, 1, 1));
    assert_eq!(failure("if* 1"), (CompileErrorKind::UnclosedIf, 0, 1, 1));
}

#[test]
fn error_dangling_else() {
    assert_eq!(failure("else"), (CompileErrorKind::DanglingElse, 0, 1, 1));
    assert_eq!(failure("while 1 else"), (CompileErrorKind::DanglingElse, 2, 1, 9));
    assert_eq!(failure("1 if 2 else 3 else"), (CompileErrorKind::DanglingElse, 5, 1, 15));
    assert_eq!(failure("defword f else"), (CompileErrorKind::DanglingElse, 2, 1, 11));
}

#[test]
fn error_expected_else_before_else_if() {
    assert_eq!(failure("if* 1 else"), (CompileErrorKind::ExpectedElseBeforeElseIf, 2, 1, 7));
    assert_eq!(failure("if* 1 end"), (CompileErrorKind::ExpectedElseBeforeElseIf, 2, 1, 7));
    assert_eq!(failure("1 if if* 2 end"), (CompileErrorKind::ExpectedElseBeforeElseIf, 4, 1, 12));
    assert_eq!(failure("while if* 2 else"), (CompileErrorKind::ExpectedElseBeforeElseIf, 3, 1, 13));
}

#[test]
fn error_dangling_end() {
    assert_eq!(failure("end"), (CompileErrorKind::DanglingEnd, 0, 1, 1));
    assert_eq!(failure("1 if 2 end\nend"), (CompileErrorKind::DanglingEnd, 4, 2, 1));
}

#[test]
fn error_while_and_do() {
    assert_eq!(failure("do 1 end"), (CompileErrorKind::ExpectedWhileBeforeDo, 2, 1, 6));
    assert_eq!(failure("1 if do 1 end"), (CompileErrorKind::ExpectedWhileBeforeDo, 4, 1, 11));
    assert_eq!(failure("while 1 end"), (CompileErrorKind::ExpectedDoAfterWhile, 2, 1, 9));
}

#[test]
fn error_use_return_to_end_word() {
    assert_eq!(failure("defword f 1 end"), (CompileErrorKind::UseReturnToEndWord, 3, 1, 13));
}

#[test]
fn error_dangling_return() {
    assert_eq!(failure("return"), (CompileErrorKind::DanglingReturn, 0, 1, 1));
    assert_eq!(failure("1 if return"), (CompileErrorKind::DanglingReturn, 2, 1, 6));
    assert_eq!(failure("defword f while 1 do return"), (CompileErrorKind::DanglingReturn, 5, 1, 22));
}

#[test]
fn error_unknown_word() {
    assert_eq!(failure("1 foo"), (CompileErrorKind::UnknownWord, 1, 1, 3));
    assert_eq!(failure("foo defword foo return"), (CompileErrorKind::UnknownWord, 0, 1, 1));
    assert_eq!(failure("1\n2\n\n   bar"), (CompileErrorKind::UnknownWord, 2, 4, 4));
}

#[test]
fn error_expected_name() {
    assert_eq!(failure("1 defword"), (CompileErrorKind::ExpectedName, 1, 1, 3));
    assert_eq!(failure("defvar"), (CompileErrorKind::ExpectedName, 0, 1, 1));
}

#[test]
fn error_malformed_literals() {
    let word = |text: &str, kind: TokenKind| Token { text: text.to_string(), line: 3, column: 4, kind };
    let fails = |token: Token| {
        let e = parse_to_program(&vec![token], &Table::new()).err().unwrap();
        assert_eq!(
            e,
            CompileError { kind: CompileErrorKind::MalformedLiteral, token: 0, line: 3, column: 4 }
        );
    };
    fails(word("abc", TokenKind::Num));
    fails(word("yes", TokenKind::Bool));
    fails(word("x", TokenKind::VarOp));
    fails(word("", TokenKind::VarOp));
    fails(word("[1 x]", TokenKind::List));
    fails(word("1", TokenKind::List));
    assert_eq!(failure("[1 foo]"), (CompileErrorKind::MalformedLiteral, 0, 1, 1));
}

#[test]
fn compile_hand_made_tokens() {
    let token = |text: &str, kind: TokenKind| Token { text: text.to_string(), line: 1, column: 1, kind };
    let program = parse_to_program(
        &vec![token("+", TokenKind::Str), token("@", TokenKind::VarOp), token("!v", TokenKind::VarOp)],
        &Table::new(),
    )
    .unwrap();
    assert_eq!(listing(&program), "PushStr(\"+\") Writevar(\"\") Readvar(\"v\") EndOfProgram");
}

#[test]
fn compile_list_constant_holds_values() {
    let program = compile("[1 \"two\" [3.5 false]]").unwrap();
    match &program[0] {
        Op::PushList(items) => {
            assert_eq!(items.len(), 3);
            assert!(matches!(items[0], Type::Number(Num::Integer(1))));
            assert!(matches!(&items[1], Type::Str(s) if s == "two"));
            match &items[2] {
                Type::List(inner) => {
                    assert!(matches!(inner[0], Type::Number(Num::Float(b)) if b == 3.5f64.to_bits()));
                    assert!(matches!(inner[1], Type::Boolean(false)));
                }
                other => panic!("{:?}", other),
            }
        }
        other => panic!("{:?}", other),
    }
}

#[test]
fn compile_emits_one_instruction_for_each_token_but_names() {
    let cases = [
        ("", 0),
        ("1 2 +", 3),
        ("defvar x 1 @x !x", 4),
        ("defword f 1 return f", 4),
        ("defword defvar return", 2),
        ("defvar defword", 1),
        ("1 if 2 else 3 end while 0 do end", 10),
        ("\"defword\" [1 2] 3", 3),
    ];
    for (source, instructions) in cases {
        let program = compile(source).unwrap();
        assert_eq!(program.len(), instructions + 1, "{}", source);
    }
}
