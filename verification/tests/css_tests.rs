use webwraith::css::{
    parse, valid_identifier_char, Color, CssParser, Decimal, Unit, Value,
};

fn chars(s: &str) -> Vec<char> {
    s.chars().collect()
}

#[test]
fn test_parse_simple_selector() {
    let mut parser = CssParser { position: 0, input: chars("body") };
    let selector = parser.parse_simple_selector().unwrap();
    assert_eq!(selector.tag_name, Some(String::from("body")));
    assert_eq!(selector.id, None);
    assert_eq!(selector.class.len(), 0);

    let mut parser = CssParser { position: 0, input: chars("#id") };
    let selector = parser.parse_simple_selector().unwrap();
    assert_eq!(selector.tag_name, None);
    assert_eq!(selector.id, Some(String::from("id")));
    assert_eq!(selector.class.len(), 0);

    let mut parser = CssParser { position: 0, input: chars(".class") };
    let selector = parser.parse_simple_selector().unwrap();
    assert_eq!(selector.tag_name, None);
    assert_eq!(selector.id, None);
    assert_eq!(selector.class.len(), 1);
    assert_eq!(selector.class[0], String::from("class"));

    let mut parser = CssParser { position: 0, input: chars("body#id.class") };
    let selector = parser.parse_simple_selector().unwrap();
    assert_eq!(selector.tag_name, Some(String::from("body")));
    assert_eq!(selector.id, Some(String::from("id")));
    assert_eq!(selector.class.len(), 1);
    assert_eq!(selector.class[0], String::from("class"));
}

#[test]
fn test_parse_rules() {
    let mut parser = CssParser { position: 0, input: chars("body { background-color: red; }") };
    let rules = parser.parse_rules().unwrap();
    assert_eq!(rules.len(), 1);

    let mut parser = CssParser {
        position: 0,
        input: chars("body { background-color: red; } p { color: #000000; }"),
    };
    let rules = parser.parse_rules().unwrap();
    assert_eq!(rules.len(), 2);
}

#[test]
fn test_parse_declarations() {
    let mut parser = CssParser { position: 0, input: chars("{background-color: red;}") };
    let declarations = parser.parse_declarations().unwrap();
    assert_eq!(declarations.len(), 1);

    let mut parser = CssParser {
        position: 0,
        input: chars("{background-color: red; color: #000000;}"),
    };
    let declarations = parser.parse_declarations().unwrap();
    assert_eq!(declarations.len(), 2);
}

#[test]
fn test_parse_identifier() {
    let mut parser = CssParser { position: 0, input: chars("body") };
    let identifier = parser.parse_identifier().unwrap();
    assert_eq!(identifier, String::from("body"));

    let mut parser = CssParser { position: 0, input: chars("body#id") };
    let identifier = parser.parse_identifier().unwrap();
    assert_eq!(identifier, String::from("body"));

    let mut parser = CssParser { position: 0, input: chars("body#id.class") };
    let identifier = parser.parse_identifier().unwrap();
    assert_eq!(identifier, String::from("body"));
}

#[test]
fn test_parse_rule() {
    let mut parser = CssParser { position: 0, input: chars("body { background-color: red; }") };
    let rule = parser.parse_rule().unwrap();
    assert_eq!(rule.selectors.len(), 1);
    assert_eq!(rule.declarations.len(), 1);

    let mut parser = CssParser {
        position: 0,
        input: chars("body { background-color: red; color: #000000; }"),
    };
    let rule = parser.parse_rule().unwrap();
    assert_eq!(rule.selectors.len(), 1);
    assert_eq!(rule.declarations.len(), 2);
}

#[test]
fn test_parse_value() {
    let mut parser = CssParser { position: 0, input: chars("red") };
    let value = parser.parse_value().unwrap();
    assert_eq!(value, Value::Keyword(String::from("red")));

    let mut parser = CssParser { position: 0, input: chars("1px") };
    let value = parser.parse_value().unwrap();
    assert_eq!(value, Value::Length(Decimal { mantissa: 1, scale: 0 }, Unit::Px));

    let mut parser = CssParser { position: 0, input: chars("#000000") };
    let value = parser.parse_value().unwrap();
    assert_eq!(value, Value::ColorValue(Color { r: 0, g: 0, b: 0, a: 255 }));
}

#[test]
fn test_parse_length() {
    let mut parser = CssParser { position: 0, input: chars("1px") };
    let value = parser.parse_length().unwrap();
    assert_eq!(value, Value::Length(Decimal { mantissa: 1, scale: 0 }, Unit::Px));
}

#[test]
fn test_parse_float() {
    let mut parser = CssParser { position: 0, input: chars("1.0") };
    let value = parser.parse_number().unwrap();
    assert_eq!(value, Decimal { mantissa: 1, scale: 0 });
}

#[test]
fn test_parse_unit() {
    let mut parser = CssParser { position: 0, input: chars("px") };
    let value = parser.parse_unit().unwrap();
    assert_eq!(value, Unit::Px);
}

#[test]
fn test_parse_color() {
    let mut parser = CssParser { position: 0, input: chars("#000000") };
    let value = parser.parse_color().unwrap();
    assert_eq!(value, Value::ColorValue(Color { r: 0, g: 0, b: 0, a: 255 }));
}

#[test]
fn test_parse_hex_pair() {
    let mut parser = CssParser { position: 0, input: chars("00") };
    let value = parser.parse_hex_pair().unwrap();
    assert_eq!(value, 0);
}

#[test]
fn test_parse_declaration() {
    let mut parser = CssParser { position: 0, input: chars("background-color: red;") };
    let declaration = parser.parse_declaration().unwrap();
    assert_eq!(declaration.name, String::from("background-color"));
    assert_eq!(declaration.value, Value::Keyword(String::from("red")));

    let mut parser = CssParser {
        position: 0,
        input: chars("background-color: red; color: #000000;"),
    };
    let declaration = parser.parse_declaration().unwrap();
    assert_eq!(declaration.name, String::from("background-color"));
    assert_eq!(declaration.value, Value::Keyword(String::from("red")));
}

#[test]
fn test_parse_selectors() {
    let mut parser = CssParser { position: 0, input: chars("body") };
    let selectors = parser.parse_selectors().unwrap();
    assert_eq!(selectors.len(), 1);

    let mut parser = CssParser { position: 0, input: chars("body, p") };
    let selectors = parser.parse_selectors().unwrap();
    assert_eq!(selectors.len(), 2);

    let mut parser = CssParser { position: 0, input: chars("body, p { background-color: red; }") };
    let selectors = parser.parse_selectors().unwrap();
    assert_eq!(selectors.len(), 2);
}

#[test]
fn css_test_parse() {
    let stylesheet = parse(String::from("body { background-color: red; }")).unwrap();
    assert_eq!(stylesheet.rules.len(), 1);

    let stylesheet = parse(String::from(
        "body { background-color: red; } p { color: #000000; }",
    ))
    .unwrap();
    assert_eq!(stylesheet.rules.len(), 2);
}

#[test]
fn test_valid_identifier_char() {
    assert!(valid_identifier_char('a'));
    assert!(valid_identifier_char('-'));
    assert!(!valid_identifier_char(' '));
}
