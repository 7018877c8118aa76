use webwraith::css::CssParser;
use webwraith::parser::{CharClass, Parser};

fn chars(s: &str) -> Vec<char> {
    s.chars().collect()
}

#[test]
fn test_current_position() {
    let parser = CssParser { position: 0, input: chars("hello") };

    assert_eq!(parser.current_position(), 0);
}

#[test]
fn test_input() {
    let parser = CssParser { position: 0, input: chars("hello") };

    assert_eq!(parser.input(), &chars("hello"));
}

#[test]
fn test_set_current_position() {
    let mut parser = CssParser { position: 0, input: chars("hello") };

    parser.set_current_position(1);
    assert_eq!(parser.current_position(), 1);

    parser.set_current_position(5);
    assert_eq!(parser.current_position(), 5);
}

#[test]
fn test_next_char() {
    let mut parser = CssParser { position: 0, input: chars("hello") };

    assert_eq!(parser.next_char(), Ok('h'));

    parser.position = 1;
    assert_eq!(parser.next_char(), Ok('e'));

    parser.position = 5;
    assert_eq!(parser.next_char(), Err("No more characters in input string"));
}

#[test]
fn test_starts_with() {
    let mut parser = CssParser { position: 0, input: chars("hello") };

    assert!(parser.starts_with(&['h', 'e', 'l', 'l', 'o']).unwrap());

    parser.position = 1;
    assert!(parser.starts_with(&['e', 'l', 'l', 'o']).unwrap());

    parser.position = 5;
    assert!(parser.starts_with(&['h', 'e', 'l', 'l', 'o']).is_err());

    parser.position = 6;
    assert!(parser.starts_with(&['h', 'e', 'l', 'l', 'o']).is_err());
}

#[test]
fn test_eof() {
    let mut parser = CssParser { position: 0, input: chars("hello") };

    assert!(!parser.eof());

    parser.position = 5;
    assert!(parser.eof());
}

#[test]
fn test_consume_char() {
    let mut parser = CssParser { position: 0, input: chars("hello") };

    assert_eq!(parser.consume_char(), Ok('h'));
    assert_eq!(parser.current_position(), 1);

    assert_eq!(parser.consume_char(), Ok('e'));
    assert_eq!(parser.current_position(), 2);

    assert_eq!(parser.consume_char(), Ok('l'));
    assert_eq!(parser.current_position(), 3);

    assert_eq!(parser.consume_char(), Ok('l'));
    assert_eq!(parser.current_position(), 4);

    assert_eq!(parser.consume_char(), Ok('o'));
    assert_eq!(parser.current_position(), 5);

    assert!(parser.consume_char().is_err());
    assert_eq!(parser.current_position(), 5);
}

#[test]
fn test_consume_while() {
    let mut parser = CssParser { position: 0, input: chars("123abc") };

    assert_eq!(parser.consume_while(CharClass::Digit), Ok(String::from("123")));
    assert_eq!(parser.position, 3);

    assert_eq!(parser.consume_while(CharClass::TagName), Ok(String::from("abc")));
    assert_eq!(parser.position, 6);

    assert_eq!(parser.consume_while(CharClass::TagName), Ok(String::from("")));
    assert_eq!(parser.position, 6);
}

#[test]
fn test_consume_whitespace() {
    let mut parser = CssParser { position: 0, input: chars("  \t\n\r") };

    assert_eq!(parser.consume_whitespace(), Ok(()));
    assert_eq!(parser.position, 5);

    assert_eq!(parser.consume_whitespace(), Ok(()));
    assert_eq!(parser.position, 5);
}
