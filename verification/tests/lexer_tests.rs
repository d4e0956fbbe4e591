//! The token scanner, over the token classes and its two failure modes.

use metakit::lexer::{Lexer, Token};
use metakit::lexer::Token::{WS, Id, Num, Symbol, Str, End};
use metakit::value::Value;

#[test]
fn simple() {
    let mut lx = Lexer::new("abc", &[]);
    assert_eq!(lx.next_token().expect("token"), Id("abc".to_string()));
    assert_eq!(lx.next_token().expect("token"), End);
}

#[test]
fn ws_par_ws_abc_par_etc() {
    let mut lx = Lexer::new("  ( a2bc) ( .5 2.3) .do ", &["(", ")", ".do"]);
    assert_eq!(lx.next_token().expect("token"), WS);
    assert_eq!(lx.next_token().expect("token"), Symbol("(".to_string()));
    assert_eq!(lx.next_token().expect("token"), WS); // this is not mandatory, see next test
    assert_eq!(lx.next_token().expect("token"), Id("a2bc".to_string()));
    assert_eq!(lx.next_token().expect("token"), Symbol(")".to_string()));
    assert_eq!(lx.next_token().expect("token"), WS);
    assert_eq!(lx.next_token().expect("token"), Symbol("(".to_string()));
    assert_eq!(lx.next_token().expect("token"), WS);
    assert_eq!(lx.next_token().expect("token"), Num(Value::from_micros(500000)));
    assert_eq!(lx.next_token().expect("token"), WS);
    assert_eq!(lx.next_token().expect("token"), Num(Value::from_micros(2300000)));
    assert_eq!(lx.next_token().expect("token"), Symbol(")".to_string()));
    assert_eq!(lx.next_token().expect("token"), WS);
    assert_eq!(lx.next_token().expect("token"), Symbol(".do".to_string()));
    assert_eq!(lx.next_token().expect("token"), WS);
    assert_eq!(lx.next_token().expect("token"), End);
}

#[test]
fn ws_par_ws_abc_par_etc_ws_not_secessary() {
    let mut lx = Lexer::new("  (abc) (.5 2.3) .do", &["(", ")", ".do"]);
    assert_eq!(lx.next_token().expect("token"), WS);
    assert_eq!(lx.next_token().expect("token"), Symbol("(".to_string()));
    assert_eq!(lx.next_token().expect("token"), Id("abc".to_string()));
    assert_eq!(lx.next_token().expect("token"), Symbol(")".to_string()));
    assert_eq!(lx.next_token().expect("token"), WS);
    assert_eq!(lx.next_token().expect("token"), Symbol("(".to_string()));
    assert_eq!(lx.next_token().expect("token"), Num(Value::from_micros(500000)));
    assert_eq!(lx.next_token().expect("token"), WS);
    assert_eq!(lx.next_token().expect("token"), Num(Value::from_micros(2300000)));
    assert_eq!(lx.next_token().expect("token"), Symbol(")".to_string()));
    assert_eq!(lx.next_token().expect("token"), WS);
    assert_eq!(lx.next_token().expect("token"), Symbol(".do".to_string()));
    assert_eq!(lx.next_token().expect("token"), End);
}

#[test]
fn ws_str_str_ws_str_etc() {
    let mut lx = Lexer::new("  'a b''c d,  e' 'fz' ''", &[]);
    assert_eq!(lx.next_token().expect("token"), WS);
    assert_eq!(lx.next_token().expect("token"), Str("a b".to_string()));
    assert_eq!(lx.next_token().expect("token"), Str("c d,  e".to_string()));
    assert_eq!(lx.next_token().expect("token"), WS);
    assert_eq!(lx.next_token().expect("token"), Str("fz".to_string()));
    assert_eq!(lx.next_token().expect("token"), WS);
    assert_eq!(lx.next_token().expect("token"), Str("".to_string()));
}

#[test]
fn num_error() {
    let mut lx = Lexer::new("1.2.3", &[]);
    if let Err(e) = lx.next_token() {
        assert_eq!(e.msg(), "invalid float literal")
    } else {
        assert!(false)
    }
}

#[test]
fn symbol_error_dot() {
    let mut lx = Lexer::new(".do", &["(", ")"]);
    if let Err(e) = lx.next_token() {
        assert_eq!(e.msg(), "not a symbol .")
    } else {
        assert!(false)
    }
}

#[test]
fn symbol_error_other() {
    let mut lx = Lexer::new("-", &["+"]);
    if let Err(e) = lx.next_token() {
        assert_eq!(e.msg(), "not a symbol -")
    } else {
        assert!(false)
    }
}

// Number tokens saturate one past six fractional digits: the seventh and
// later are dropped.
#[test]
fn num_fraction_truncates() {
    let mut lx = Lexer::new("1.2345678", &[]);
    assert_eq!(lx.next_token().expect("token"), Token::Num(Value::from_micros(1234567)));
}

// A string token left unterminated at the end of the text is accepted with
// whatever it accumulated.
#[test]
fn unterminated_string_is_taken_whole() {
    let mut lx = Lexer::new("'abc", &[]);
    assert_eq!(lx.next_token().expect("token"), Str("abc".to_string()));
    assert_eq!(lx.next_token().expect("token"), End);
}

// A symbol token grows while it still begins some table symbol, so a bare
// prefix of a symbol is itself accepted.
#[test]
fn symbol_prefix_is_accepted() {
    let mut lx = Lexer::new(".d", &[".do"]);
    assert_eq!(lx.next_token().expect("token"), Symbol(".d".to_string()));
}
