use forth_vm::floats::float_literals;
use forth_vm::lexer::{tokenize, LexErrorKind};
use forth_vm::literal::{
    get_nested_list, is_str, parse_list, parse_piece, parse_to_num, space_brackets,
    split_str_to_list, LiteralError,
};
use forth_vm::table::Table;
use forth_vm::text::{chars_of, is_float, parse_integer};
use forth_vm::types::{Num, Type};

fn strings(items: &[&str]) -> Vec<String> {
    items.iter().map(|s| s.to_string()).collect()
}

fn whole(n: i64) -> Type {
    Type::Number(Num::Integer(n))
}

fn same(a: &Type, b: &Type) -> bool {
    match (a, b) {
        (Type::Null, Type::Null) => true,
        (Type::Boolean(x), Type::Boolean(y)) => x == y,
        (Type::Number(Num::Integer(x)), Type::Number(Num::Integer(y))) => x == y,
        (Type::Number(Num::Float(x)), Type::Number(Num::Float(y))) => x == y,
        (Type::Str(x), Type::Str(y)) => x == y,
        (Type::List(x), Type::List(y)) => {
            x.len() == y.len() && x.iter().zip(y.iter()).all(|(p, q)| same(p, q))
        }
        _ => false,
    }
}

fn same_all(a: &[Type], b: &[Type]) -> bool {
    a.len() == b.len() && a.iter().zip(b.iter()).all(|(p, q)| same(p, q))
}

#[test]
fn parse_integer_reads_signed_decimals() {
    let read = |s: &str| parse_integer(&s.chars().collect());
    assert_eq!(read("0"), Some(0));
    assert_eq!(read("42"), Some(42));
    assert_eq!(read("-42"), Some(-42));
    assert_eq!(read("+42"), Some(42));
    assert_eq!(read("0042"), Some(42));
    assert_eq!(read("-0"), Some(0));
    assert_eq!(read("9223372036854775807"), Some(i64::MAX));
    assert_eq!(read("-9223372036854775808"), Some(i64::MIN));
    assert_eq!(read("9223372036854775808"), None);
    assert_eq!(read("-9223372036854775809"), None);
    assert_eq!(read("18446744073709551616"), None);
    assert_eq!(read("000000000000000000000000009"), Some(9));
    assert_eq!(read(""), None);
    assert_eq!(read("+"), None);
    assert_eq!(read("-"), None);
    assert_eq!(read("1a"), None);
    assert_eq!(read("1 "), None);
    assert_eq!(read("--1"), None);
    assert_eq!(read("1.0"), None);
}

#[test]
fn parse_integer_agrees_with_std() {
    let samples = [
        "", "0", "1", "-1", "+1", "00", "-00", "+-1", "9223372036854775807",
        "9223372036854775808", "-9223372036854775808", "-9223372036854775809",
        "92233720368547758070", "922337203685477580", "9223372036854775799", "1e3", "١", "1_0",
        " 1", "1 ", "0x1", "+", "-", "99999999999999999999999999999999", "-99999999999999999999",
    ];
    for text in samples {
        assert_eq!(parse_integer(&text.chars().collect()), text.parse::<i64>().ok(), "{:?}", text);
    }
}

#[test]
fn is_float_agrees_with_std() {
    let mantissas = ["", "1", "12", ".", "1.", ".1", "1.1", "..", "1..1", "a", "1a", "inf", "nan", "infinity", "iNf", "NaN", "InFiNiTy", "in", "infi", "nana"];
    let exponents = ["", "e", "E", "e1", "E12", "e+", "e-", "e+1", "e-12", "e1.", "e1e1", "ee1", "e+-1", "x"];
    let signs = ["", "+", "-", "++", "+-", " "];
    for sign in signs {
        for mantissa in mantissas {
            for exponent in exponents {
                let text = format!("{}{}{}", sign, mantissa, exponent);
                let chars: Vec<char> = text.chars().collect();
                assert_eq!(is_float(&chars), text.parse::<f64>().is_ok(), "{:?}", text);
            }
        }
    }
}

#[test]
fn chars_of_lists_the_characters() {
    assert_eq!(chars_of("aé\n"), vec!['a', 'é', '\n']);
    assert_eq!(chars_of(""), Vec::<char>::new());
}

#[test]
fn space_brackets_sets_brackets_apart() {
    assert_eq!(space_brackets("[1 2 3]"), "[ 1 2 3 ] ");
    assert_eq!(space_brackets("[[1] [2]]"), "[ [ 1 ] [ 2 ] ] ");
    assert_eq!(space_brackets(""), " ");
    assert_eq!(space_brackets("abc"), "abc ");
}

#[test]
fn space_brackets_leaves_quoted_text_alone() {
    assert_eq!(space_brackets("[\"[x]\" 1]"), "[ \"[x]\" 1 ] ");
    assert_eq!(space_brackets("[\"a\"]"), "[ \"a\" ] ");
    assert_eq!(space_brackets("\"[\" [ \"]\""), "\"[\" [  \"]\" ");
}

#[test]
fn split_str_to_list_splits_at_white_space() {
    assert_eq!(split_str_to_list("[ 1 2 3 ] "), Ok(strings(&["[", "1", "2", "3", "]"])));
    assert_eq!(split_str_to_list(""), Ok(strings(&[])));
    assert_eq!(split_str_to_list("  \n "), Ok(strings(&[])));
    assert_eq!(split_str_to_list("a"), Ok(strings(&["a"])));
    assert_eq!(split_str_to_list("a\tb\nc"), Ok(strings(&["a", "b", "c"])));
}

#[test]
fn split_str_to_list_keeps_quoted_strings_whole() {
    assert_eq!(
        split_str_to_list("[ 1 \"a b\" [ 2 ] ] "),
        Ok(strings(&["[", "1", "\"a b\"", "[", "2", "]", "]"]))
    );
    assert_eq!(split_str_to_list("\"\""), Ok(strings(&["\"\""])));
    assert_eq!(split_str_to_list("\"x\" \"y z\""), Ok(strings(&["\"x\"", "\"y z\""])));
}

#[test]
fn split_str_to_list_errors() {
    assert_eq!(split_str_to_list("1 \"abc"), Err(LexErrorKind::UnterminatedString));
    assert_eq!(split_str_to_list("\"abc\"d"), Err(LexErrorKind::MalformedToken));
    assert_eq!(split_str_to_list("ab\"c\" "), Err(LexErrorKind::UnexpectedCharacter));
}

#[test]
fn is_str_looks_at_both_ends() {
    assert!(is_str("\"abc\""));
    assert!(is_str("\"\""));
    assert!(is_str("\""));
    assert!(!is_str(""));
    assert!(!is_str("\"abc"));
    assert!(!is_str("abc\""));
    assert!(!is_str("abc"));
    assert!(is_str("\"é\""));
}

#[test]
fn parse_to_num_reads_integers_without_a_table() {
    let floats = Table::new();
    assert!(matches!(parse_to_num("12", &floats), Ok(Num::Integer(12))));
    assert!(matches!(parse_to_num("-3", &floats), Ok(Num::Integer(-3))));
}

#[test]
fn parse_to_num_looks_floats_up() {
    let mut floats = Table::new();
    assert_eq!(parse_to_num("1.5", &floats).err(), Some(LiteralError::UnresolvedFloat));
    floats.insert("1.5".to_string(), 1.5f64.to_bits());
    floats.insert("9223372036854775808".to_string(), 9223372036854775808f64.to_bits());
    assert!(matches!(parse_to_num("1.5", &floats), Ok(Num::Float(b)) if b == 1.5f64.to_bits()));
    assert!(matches!(
        parse_to_num("9223372036854775808", &floats),
        Ok(Num::Float(b)) if b == 9223372036854775808f64.to_bits()
    ));
    assert_eq!(parse_to_num("1.50", &floats).err(), Some(LiteralError::UnresolvedFloat));
    assert_eq!(parse_to_num("abc", &floats).err(), Some(LiteralError::Malformed));
    assert_eq!(parse_to_num("", &floats).err(), Some(LiteralError::Malformed));
}

#[test]
fn parse_piece_reads_each_kind() {
    let mut floats = Table::new();
    floats.insert("2.5".to_string(), 2.5f64.to_bits());
    assert!(same(&parse_piece("7", &floats).unwrap(), &whole(7)));
    assert!(same(
        &parse_piece("2.5", &floats).unwrap(),
        &Type::Number(Num::Float(2.5f64.to_bits()))
    ));
    assert!(same(&parse_piece("\"a b\"", &floats).unwrap(), &Type::Str("a b".to_string())));
    assert!(same(&parse_piece("\"\"", &floats).unwrap(), &Type::Str(String::new())));
    assert!(same(&parse_piece("true", &floats).unwrap(), &Type::Boolean(true)));
    assert!(same(&parse_piece("false", &floats).unwrap(), &Type::Boolean(false)));
    assert_eq!(parse_piece("\"", &floats).err(), Some(LiteralError::Malformed));
    assert_eq!(parse_piece("foo", &floats).err(), Some(LiteralError::Malformed));
    assert_eq!(parse_piece("True", &floats).err(), Some(LiteralError::Malformed));
    assert_eq!(parse_piece("3.5", &floats).err(), Some(LiteralError::UnresolvedFloat));
}

#[test]
fn get_nested_list_reads_values_up_to_the_closing_bracket() {
    let floats = Table::new();
    let pieces = strings(&["1", "2", "]", "3"]);
    let (values, next) = get_nested_list(&pieces, 0, &floats).unwrap();
    assert!(same_all(&values, &[whole(1), whole(2)]));
    assert_eq!(next, 3);
    let (values, next) = get_nested_list(&pieces, 3, &floats).unwrap();
    assert!(same_all(&values, &[whole(3)]));
    assert_eq!(next, 4);
    let (values, next) = get_nested_list(&pieces, 4, &floats).unwrap();
    assert!(values.is_empty());
    assert_eq!(next, 4);
}

#[test]
fn get_nested_list_nests() {
    let floats = Table::new();
    let pieces = strings(&["[", "1", "[", "true", "\"x\"", "]", "[", "]", "]"]);
    let (values, next) = get_nested_list(&pieces, 0, &floats).unwrap();
    assert_eq!(next, 9);
    let expected = vec![Type::List(vec![
        whole(1),
        Type::List(vec![Type::Boolean(true), Type::Str("x".to_string())]),
        Type::List(vec![]),
    ])];
    assert!(same_all(&values, &expected));
}

#[test]
fn get_nested_list_errors() {
    let floats = Table::new();
    assert_eq!(
        get_nested_list(&strings(&["[", "1", "oops", "]"]), 0, &floats).err(),
        Some(LiteralError::Malformed)
    );
    assert_eq!(
        get_nested_list(&strings(&["[", "[", "1.5", "]", "]"]), 0, &floats).err(),
        Some(LiteralError::UnresolvedFloat)
    );
}

#[test]
fn parse_list_reads_a_literal() {
    let mut floats = Table::new();
    floats.insert("1.5".to_string(), 1.5f64.to_bits());
    let items = parse_list("[1 1.5 \"a [b]\" [true [false]] -2]", &floats).unwrap();
    let expected = vec![
        whole(1),
        Type::Number(Num::Float(1.5f64.to_bits())),
        Type::Str("a [b]".to_string()),
        Type::List(vec![Type::Boolean(true), Type::List(vec![Type::Boolean(false)])]),
        whole(-2),
    ];
    assert!(same_all(&items, &expected));
    assert!(parse_list("[]", &floats).unwrap().is_empty());
    assert!(parse_list("[ ]", &floats).unwrap().is_empty());
}

#[test]
fn parse_list_errors() {
    let floats = Table::new();
    assert_eq!(parse_list("", &floats).err(), Some(LiteralError::Malformed));
    assert_eq!(parse_list("5", &floats).err(), Some(LiteralError::Malformed));
    assert_eq!(parse_list("[1 x]", &floats).err(), Some(LiteralError::Malformed));
    assert_eq!(parse_list("[1 \"x]", &floats).err(), Some(LiteralError::Malformed));
    assert_eq!(parse_list("[1 a\"x\"]", &floats).err(), Some(LiteralError::Malformed));
    assert_eq!(parse_list("[2.5]", &floats).err(), Some(LiteralError::UnresolvedFloat));
}

#[test]
fn float_literals_lists_what_the_compiler_looks_up() {
    let tokens = tokenize("1 2.5 \"3.5\" [4 4.5 [5e1 \"6.5\" x] nan] inf 7 foo 2.5").unwrap();
    assert_eq!(float_literals(&tokens), strings(&["2.5", "4.5", "5e1", "nan", "inf", "2.5"]));
    assert_eq!(float_literals(&tokenize("1 2 +").unwrap()), strings(&[]));
    assert_eq!(float_literals(&Vec::new()), strings(&[]));
}
