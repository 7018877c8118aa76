use webwraith::dom::{elem, text, AttrMap};
use webwraith::html::HtmlParser;

fn chars(s: &str) -> Vec<char> {
    s.chars().collect()
}

#[test]
fn test_parse_tag_name() {
    let mut parser = HtmlParser { current_position: 0, input: chars("div") };

    assert_eq!(parser.parse_tag_name(), Ok(String::from("div")));
    assert_eq!(parser.current_position, 3);

    parser.current_position = 0;
    parser.input = chars("123");
    assert_eq!(parser.parse_tag_name(), Ok(String::from("123")));
    assert_eq!(parser.current_position, 3);

    parser.current_position = 0;
    parser.input = chars("div123");
    assert_eq!(parser.parse_tag_name(), Ok(String::from("div123")));
    assert_eq!(parser.current_position, 6);

    parser.current_position = 0;
    parser.input = chars("div-123");
    assert_eq!(parser.parse_tag_name(), Ok(String::from("div")));
    assert_eq!(parser.current_position, 3);

    parser.current_position = 0;
    parser.input = chars("div_123");
    assert_eq!(parser.parse_tag_name(), Ok(String::from("div")));
    assert_eq!(parser.current_position, 3);

    parser.current_position = 0;
    parser.input = chars("div.123");
    assert_eq!(parser.parse_tag_name(), Ok(String::from("div")));
    assert_eq!(parser.current_position, 3);

    parser.current_position = 0;
    parser.input = chars("div#123");
    assert_eq!(parser.parse_tag_name(), Ok(String::from("div")));
    assert_eq!(parser.current_position, 3);
}

#[test]
fn test_parse_text() {
    let mut parser = HtmlParser { current_position: 0, input: chars("hello") };

    assert_eq!(parser.parse_text(), Ok(text("hello".to_string())));
    assert_eq!(parser.current_position, 5);
}

#[test]
fn test_parse_element() {
    let mut parser = HtmlParser { current_position: 0, input: chars("<div></div>") };

    assert_eq!(parser.parse_element(), Ok(elem("div".to_string(), AttrMap::new(), vec![])));
    assert_eq!(parser.current_position, 11);

    parser.current_position = 0;
    parser.input = chars("<div>hello</div>");
    assert_eq!(
        parser.parse_element(),
        Ok(elem("div".to_string(), AttrMap::new(), vec![text("hello".to_string())]))
    );
    assert_eq!(parser.current_position, 16);

    parser.current_position = 0;
    parser.input = chars("<div class=\"example\"></div>");
    let mut attrs = AttrMap::new();
    attrs.insert("class".to_string(), "example".to_string());
    assert_eq!(parser.parse_element(), Ok(elem("div".to_string(), attrs, vec![])));
    assert_eq!(parser.current_position, 27);

    parser.current_position = 0;
    parser.input = chars("<div class=\"example\" id=\"main\"></div>");
    let mut attrs = AttrMap::new();
    attrs.insert("class".to_string(), "example".to_string());
    attrs.insert("id".to_string(), "main".to_string());
    assert_eq!(parser.parse_element(), Ok(elem("div".to_string(), attrs, vec![])));
    assert_eq!(parser.current_position, 37);

    parser.current_position = 0;
    parser.input = chars("<div class=\"example\" id=\"main\">hello</div>");
    let mut attrs = AttrMap::new();
    attrs.insert("class".to_string(), "example".to_string());
    attrs.insert("id".to_string(), "main".to_string());
    assert_eq!(
        parser.parse_element(),
        Ok(elem("div".to_string(), attrs, vec![text("hello".to_string())]))
    );
    assert_eq!(parser.current_position, 42);
}

#[test]
fn test_parse_opening_tag() {
    let mut parser = HtmlParser { current_position: 0, input: chars("<div>") };

    assert_eq!(parser.parse_opening_tag(), Ok(("div".to_string(), AttrMap::new())));
    assert_eq!(parser.current_position, 5);

    parser.current_position = 0;
    parser.input = chars("<div class=\"example\">");
    let mut attrs = AttrMap::new();
    attrs.insert("class".to_string(), "example".to_string());
    assert_eq!(parser.parse_opening_tag(), Ok(("div".to_string(), attrs)));
    assert_eq!(parser.current_position, 21);

    parser.current_position = 0;
    parser.input = chars("<div class=\"example\" id=\"main\">");
    let mut attrs = AttrMap::new();
    attrs.insert("class".to_string(), "example".to_string());
    attrs.insert("id".to_string(), "main".to_string());
    assert_eq!(parser.parse_opening_tag(), Ok(("div".to_string(), attrs)));
    assert_eq!(parser.current_position, 31);
}

#[test]
fn test_parse_closing_tag() {
    let mut parser = HtmlParser { current_position: 0, input: chars("</div>") };

    assert_eq!(parser.parse_closing_tag(), Ok("div".to_string()));
    assert_eq!(parser.current_position, 6);
}

#[test]
fn test_parse_attributes() {
    let mut parser = HtmlParser { current_position: 0, input: chars("class=\"example\"") };

    let mut attrs = AttrMap::new();
    attrs.insert("class".to_string(), "example".to_string());
    assert_eq!(parser.parse_attributes(), Ok(attrs));
    assert_eq!(parser.current_position, 15);

    parser.current_position = 0;
    parser.input = chars("class=\"example\" id=\"main\"");
    let mut attrs = AttrMap::new();
    attrs.insert("class".to_string(), "example".to_string());
    attrs.insert("id".to_string(), "main".to_string());
    assert_eq!(parser.parse_attributes(), Ok(attrs));
    assert_eq!(parser.current_position, 25);
}

#[test]
fn test_parse_attribute() {
    let mut parser = HtmlParser { current_position: 0, input: chars("class=\"example\"") };

    assert_eq!(parser.parse_attribute(), Ok(("class".to_string(), "example".to_string())));
    assert_eq!(parser.current_position, 15);

    parser.current_position = 0;
    parser.input = chars("class=\"example\" id=\"main\"");
    assert_eq!(parser.parse_attribute(), Ok(("class".to_string(), "example".to_string())));
    assert_eq!(parser.current_position, 15);
}

#[test]
fn test_parse_attr_value() {
    let mut parser = HtmlParser { current_position: 0, input: chars("\"example\"") };

    assert_eq!(parser.parse_attr_value(), Ok("example".to_string()));
    assert_eq!(parser.current_position, 9);
}

#[test]
fn test_parse_nodes() {
    let mut parser = HtmlParser {
        current_position: 0,
        input: chars("<html><body><h1>Hello, world!</h1></body></html>"),
    };

    let nodes = vec![elem(
        "html".to_string(),
        AttrMap::new(),
        vec![elem(
            "body".to_string(),
            AttrMap::new(),
            vec![elem("h1".to_string(), AttrMap::new(), vec![text("Hello, world!".to_string())])],
        )],
    )];

    assert_eq!(parser.parse_nodes(), Ok(nodes));
    assert_eq!(parser.current_position, 48);
}

#[test]
fn html_test_parse() {
    let source = String::from("<html><body><h1>Hello, world!</h1></body></html>");

    let nodes = elem(
        "html".to_string(),
        AttrMap::new(),
        vec![elem(
            "body".to_string(),
            AttrMap::new(),
            vec![elem("h1".to_string(), AttrMap::new(), vec![text("Hello, world!".to_string())])],
        )],
    );

    assert_eq!(HtmlParser::parse(source), Ok(nodes));
}
