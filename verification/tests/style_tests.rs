use webwraith::css::{parse, Color, CssParser, Decimal, ParseErrorKind, Unit, Value};
use webwraith::dom::{comment, elem, text, AttrMap, ElementData, Node};
use webwraith::html::HtmlParser;
use webwraith::style::{match_rule, specified_values, style_tree, Display, StyledNode};

fn chars(s: &str) -> Vec<char> {
    s.chars().collect()
}

fn element(tag: &str, attrs: &[(&str, &str)]) -> ElementData {
    let mut m = AttrMap::new();
    for (k, v) in attrs {
        m.insert(k.to_string(), v.to_string());
    }
    ElementData { tag_name: tag.to_string(), attributes: m }
}

fn element_node(tag: &str, attrs: &[(&str, &str)]) -> Node {
    let mut m = AttrMap::new();
    for (k, v) in attrs {
        m.insert(k.to_string(), v.to_string());
    }
    elem(tag.to_string(), m, vec![])
}

#[test]
fn single_rule_structure() {
    let sheet = parse(String::from("body { background-color: red; }")).unwrap();
    assert_eq!(sheet.rules.len(), 1);
    assert_eq!(sheet.rules[0].selectors.len(), 1);
    let webwraith::css::Selector::Simple(ref sel) = sheet.rules[0].selectors[0];
    assert_eq!(sel.tag_name, Some(String::from("body")));
    assert_eq!(sel.id, None);
    assert_eq!(sel.class.len(), 0);
    assert_eq!(sheet.rules[0].declarations.len(), 1);
    assert_eq!(sheet.rules[0].declarations[0].name, String::from("background-color"));
    assert_eq!(
        sheet.rules[0].declarations[0].value,
        Value::Keyword(String::from("red"))
    );
}

#[test]
fn color_value_channels() {
    let mut parser = CssParser { position: 0, input: chars("#000000") };
    assert_eq!(
        parser.parse_color().unwrap(),
        Value::ColorValue(Color { r: 0, g: 0, b: 0, a: 255 })
    );

    let mut parser = CssParser { position: 0, input: chars("#ffffff") };
    assert_eq!(
        parser.parse_color().unwrap(),
        Value::ColorValue(Color { r: 255, g: 255, b: 255, a: 255 })
    );

    let mut parser = CssParser { position: 0, input: chars("#C0fFeE") };
    assert_eq!(
        parser.parse_color().unwrap(),
        Value::ColorValue(Color { r: 0xC0, g: 0xFF, b: 0xEE, a: 255 })
    );
}

#[test]
fn id_rule_outranks_tag_rule() {
    // The id rule is declared first, yet it wins: specificity outranks
    // source order.
    let sheet = parse(String::from("#x { color: blue; } p { color: red; }")).unwrap();
    let e = element("p", &[("id", "x")]);
    let values = specified_values(&e, &sheet);
    assert_eq!(values.get("color"), Some(&Value::Keyword(String::from("blue"))));

    // The same in the other source order.
    let sheet = parse(String::from("p { color: red; } #x { color: blue; }")).unwrap();
    let values = specified_values(&e, &sheet);
    assert_eq!(values.get("color"), Some(&Value::Keyword(String::from("blue"))));
}

#[test]
fn later_rule_wins_on_equal_specificity() {
    let sheet = parse(String::from("p { color: red; } p { color: blue; }")).unwrap();
    let e = element("p", &[]);
    let values = specified_values(&e, &sheet);
    assert_eq!(values.get("color"), Some(&Value::Keyword(String::from("blue"))));
}

#[test]
fn later_declaration_wins_within_rule() {
    let sheet = parse(String::from("p { color: red; color: blue; }")).unwrap();
    let e = element("p", &[]);
    let values = specified_values(&e, &sheet);
    assert_eq!(values.get("color"), Some(&Value::Keyword(String::from("blue"))));
}

#[test]
fn lookup_uses_fallback_then_default() {
    let sheet = parse(String::from("p { margin-left: 1px; }")).unwrap();
    let node = element_node("p", &[]);
    let styled = style_tree(&node, &sheet);
    let default = Value::Length(Decimal { mantissa: 0, scale: 0 }, Unit::Px);
    assert_eq!(
        styled.lookup("margin", "margin-left", &default),
        Value::Length(Decimal { mantissa: 1, scale: 0 }, Unit::Px)
    );

    let empty_sheet = parse(String::from("")).unwrap();
    let styled = style_tree(&node, &empty_sheet);
    assert_eq!(
        styled.lookup("margin", "margin-left", &default),
        Value::Length(Decimal { mantissa: 0, scale: 0 }, Unit::Px)
    );
}

#[test]
fn lookup_prefers_primary_name() {
    let sheet = parse(String::from("p { margin: 2px; margin-left: 1px; }")).unwrap();
    let node = element_node("p", &[]);
    let styled = style_tree(&node, &sheet);
    let default = Value::Length(Decimal { mantissa: 0, scale: 0 }, Unit::Px);
    assert_eq!(
        styled.lookup("margin", "margin-left", &default),
        Value::Length(Decimal { mantissa: 2, scale: 0 }, Unit::Px)
    );
}

#[test]
fn display_classification() {
    let node = element_node("p", &[]);

    let sheet = parse(String::from("p { display: block; }")).unwrap();
    assert_eq!(style_tree(&node, &sheet).display(), Display::Block);

    let sheet = parse(String::from("p { display: none; }")).unwrap();
    assert_eq!(style_tree(&node, &sheet).display(), Display::NoDisplay);

    let sheet = parse(String::from("p { display: flex; }")).unwrap();
    assert_eq!(style_tree(&node, &sheet).display(), Display::Inline);

    let sheet = parse(String::from("p { display: 1px; }")).unwrap();
    assert_eq!(style_tree(&node, &sheet).display(), Display::Inline);

    let sheet = parse(String::from("p { display: #000000; }")).unwrap();
    assert_eq!(style_tree(&node, &sheet).display(), Display::Inline);

    let sheet = parse(String::from("p { color: red; }")).unwrap();
    assert_eq!(style_tree(&node, &sheet).display(), Display::Inline);
}

fn assert_same_shape(n: &Node, s: &StyledNode) {
    assert_eq!(n.children.len(), s.children.len());
    for i in 0..n.children.len() {
        assert_same_shape(&n.children[i], &s.children[i]);
    }
}

#[test]
fn resolved_tree_is_isomorphic() {
    let root = HtmlParser::parse(String::from(
        "<html><head><title>t</title></head><body><h1>Hello</h1><p>a</p><p>b</p></body></html>",
    ))
    .unwrap();
    let sheet = parse(String::from("p { color: red; } h1 { display: block; }")).unwrap();
    let styled = style_tree(&root, &sheet);
    assert_same_shape(&root, &styled);
}

#[test]
fn grouped_selector_matches_by_second_selector() {
    let sheet = parse(String::from("body, p { color: red; }")).unwrap();
    let e = element("p", &[]);
    let matched = match_rule(&e, &sheet.rules[0]).unwrap();
    assert_eq!(matched.0, (0, 0, 1));
}

#[test]
fn selectors_sorted_by_descending_specificity() {
    let sheet = parse(String::from("p, .a, #x { color: red; }")).unwrap();
    let sels = &sheet.rules[0].selectors;
    let webwraith::css::Selector::Simple(ref s0) = sels[0];
    let webwraith::css::Selector::Simple(ref s1) = sels[1];
    let webwraith::css::Selector::Simple(ref s2) = sels[2];
    assert_eq!(s0.id, Some(String::from("x")));
    assert_eq!(s1.class, vec![String::from("a")]);
    assert_eq!(s2.tag_name, Some(String::from("p")));
}

#[test]
fn selector_sort_is_stable() {
    let sheet = parse(String::from("p, body { color: red; }")).unwrap();
    let sels = &sheet.rules[0].selectors;
    let webwraith::css::Selector::Simple(ref s0) = sels[0];
    let webwraith::css::Selector::Simple(ref s1) = sels[1];
    assert_eq!(s0.tag_name, Some(String::from("p")));
    assert_eq!(s1.tag_name, Some(String::from("body")));
}

#[test]
fn selector_matching_rules() {
    let e = element("p", &[("id", "x"), ("class", "a b")]);

    let mut parser = CssParser { position: 0, input: chars("p") };
    let sel = webwraith::css::Selector::Simple(parser.parse_simple_selector().unwrap());
    assert!(webwraith::style::matches(&e, &sel));

    let mut parser = CssParser { position: 0, input: chars("div") };
    let sel = webwraith::css::Selector::Simple(parser.parse_simple_selector().unwrap());
    assert!(!webwraith::style::matches(&e, &sel));

    let mut parser = CssParser { position: 0, input: chars("*") };
    let sel = webwraith::css::Selector::Simple(parser.parse_simple_selector().unwrap());
    assert!(webwraith::style::matches(&e, &sel));

    let mut parser = CssParser { position: 0, input: chars(".a.b") };
    let sel = webwraith::css::Selector::Simple(parser.parse_simple_selector().unwrap());
    assert!(webwraith::style::matches(&e, &sel));

    let mut parser = CssParser { position: 0, input: chars(".c") };
    let sel = webwraith::css::Selector::Simple(parser.parse_simple_selector().unwrap());
    assert!(!webwraith::style::matches(&e, &sel));

    let mut parser = CssParser { position: 0, input: chars("#x") };
    let sel = webwraith::css::Selector::Simple(parser.parse_simple_selector().unwrap());
    assert!(webwraith::style::matches(&e, &sel));

    let mut parser = CssParser { position: 0, input: chars("#y") };
    let sel = webwraith::css::Selector::Simple(parser.parse_simple_selector().unwrap());
    assert!(!webwraith::style::matches(&e, &sel));
}

#[test]
fn text_and_comment_nodes_get_empty_maps() {
    let sheet = parse(String::from("p { color: red; }")).unwrap();
    let t = text("hello".to_string());
    let styled = style_tree(&t, &sheet);
    assert_eq!(styled.value("color"), None);

    let c = comment("a note".to_string());
    let styled = style_tree(&c, &sheet);
    assert_eq!(styled.value("color"), None);
}

#[test]
fn empty_stylesheet_parses() {
    let sheet = parse(String::from("")).unwrap();
    assert_eq!(sheet.rules.len(), 0);

    let sheet = parse(String::from("   \n\t  ")).unwrap();
    assert_eq!(sheet.rules.len(), 0);
}

#[test]
fn decimal_lengths_are_canonical() {
    let one = |src: &str| {
        let mut parser = CssParser { position: 0, input: chars(src) };
        parser.parse_length().unwrap()
    };
    assert_eq!(one("1.0px"), one("1px"));
    assert_eq!(one("1.50px"), one("1.5px"));
    assert_eq!(one("0.25px"), Value::Length(Decimal { mantissa: 25, scale: 2 }, Unit::Px));
    assert_eq!(one("10px"), Value::Length(Decimal { mantissa: 10, scale: 0 }, Unit::Px));
    assert_ne!(one("1.5px"), one("15px"));
}

#[test]
fn unit_recognition_is_case_insensitive() {
    let mut parser = CssParser { position: 0, input: chars("3PX") };
    assert_eq!(
        parser.parse_length().unwrap(),
        Value::Length(Decimal { mantissa: 3, scale: 0 }, Unit::Px)
    );
}

#[test]
fn error_unexpected_character_in_selector_list() {
    let src = "body & p { color: red; }";
    let err = parse(String::from(src)).unwrap_err();
    assert_eq!(err.kind, ParseErrorKind::UnexpectedCharacterInSelectorList);
    assert_eq!(err.offset, src.find('&').unwrap());
}

#[test]
fn error_expected_block_open() {
    let src = "body";
    let err = parse(String::from(src)).unwrap_err();
    assert_eq!(err.kind, ParseErrorKind::ExpectedBlockOpen);
    assert_eq!(err.offset, 4);
}

#[test]
fn error_unterminated_block() {
    let src = "body { color: red;";
    let err = parse(String::from(src)).unwrap_err();
    assert_eq!(err.kind, ParseErrorKind::UnterminatedBlock);
    assert_eq!(err.offset, src.len());
}

#[test]
fn error_expected_colon() {
    let src = "body { color red; }";
    let err = parse(String::from(src)).unwrap_err();
    assert_eq!(err.kind, ParseErrorKind::ExpectedColon);
    assert_eq!(err.offset, src.find("red").unwrap());
}

#[test]
fn error_expected_semicolon() {
    let src = "body { color: red }";
    let err = parse(String::from(src)).unwrap_err();
    assert_eq!(err.kind, ParseErrorKind::ExpectedSemicolon);
    assert_eq!(err.offset, src.find('}').unwrap());
}

#[test]
fn error_unrecognized_unit() {
    let src = "body { margin: 2em; }";
    let err = parse(String::from(src)).unwrap_err();
    assert_eq!(err.kind, ParseErrorKind::UnrecognizedUnit);
    assert_eq!(err.offset, src.find("em").unwrap());
}

#[test]
fn error_malformed_number() {
    let src = "body { margin: 1.px; }";
    let err = parse(String::from(src)).unwrap_err();
    assert_eq!(err.kind, ParseErrorKind::MalformedNumber);
    assert_eq!(err.offset, src.find('1').unwrap());

    let src = "body { margin: 1.2.3px; }";
    let err = parse(String::from(src)).unwrap_err();
    assert_eq!(err.kind, ParseErrorKind::MalformedNumber);
}

#[test]
fn error_number_too_large() {
    let src = "body { margin: 99999999999999999999px; }";
    let err = parse(String::from(src)).unwrap_err();
    assert_eq!(err.kind, ParseErrorKind::NumberTooLarge);
    assert_eq!(err.offset, src.find('9').unwrap());
}

#[test]
fn error_malformed_hex_color() {
    let src = "body { color: #12; }";
    let err = parse(String::from(src)).unwrap_err();
    assert_eq!(err.kind, ParseErrorKind::MalformedHexColor);
    assert_eq!(err.offset, src.find(';').unwrap());

    let src = "body { color: #12ZZ56; }";
    let err = parse(String::from(src)).unwrap_err();
    assert_eq!(err.kind, ParseErrorKind::MalformedHexColor);
    assert_eq!(err.offset, src.find('Z').unwrap());
}

#[test]
fn error_offsets_are_byte_offsets() {
    // The no-break space before the block is two bytes in UTF-8, so the
    // reported offset counts it as two.
    let src = "p\u{a0}{ color red; }";
    let err = parse(String::from(src)).unwrap_err();
    assert_eq!(err.kind, ParseErrorKind::ExpectedColon);
    assert_eq!(err.offset, src.find("red").unwrap());
}

#[test]
fn attr_map_last_write_wins() {
    let mut m = AttrMap::new();
    m.insert("id".to_string(), "a".to_string());
    m.insert("id".to_string(), "b".to_string());
    assert_eq!(m.get("id"), Some(&"b".to_string()));
    assert_eq!(m.get("class"), None);
}

#[test]
fn element_id_and_classes() {
    let e = element("p", &[("id", "x"), ("class", "a  b")]);
    assert_eq!(e.id(), Some(&"x".to_string()));
    // Splitting at each whitespace character keeps empty pieces between
    // adjacent separators.
    assert_eq!(
        e.classes(),
        vec!["a".to_string(), "".to_string(), "b".to_string()]
    );

    // Any whitespace character separates class names, not only the
    // space character.
    let e = element("p", &[("class", "a	b
c")]);
    assert_eq!(
        e.classes(),
        vec!["a".to_string(), "b".to_string(), "c".to_string()]
    );

    let e = element("p", &[]);
    assert_eq!(e.id(), None);
    assert_eq!(e.classes(), Vec::<String>::new());
}

#[test]
fn class_matching_splits_at_any_whitespace() {
    let e = element("p", &[("class", "a	b")]);

    let mut parser = CssParser { position: 0, input: chars(".a") };
    let sel = webwraith::css::Selector::Simple(parser.parse_simple_selector().unwrap());
    assert!(webwraith::style::matches(&e, &sel));

    let mut parser = CssParser { position: 0, input: chars(".b") };
    let sel = webwraith::css::Selector::Simple(parser.parse_simple_selector().unwrap());
    assert!(webwraith::style::matches(&e, &sel));

    let mut parser = CssParser { position: 0, input: chars(".a.b") };
    let sel = webwraith::css::Selector::Simple(parser.parse_simple_selector().unwrap());
    assert!(webwraith::style::matches(&e, &sel));
}

#[test]
fn pretty_print_renders_the_tree() {
    let root = elem(
        "div".to_string(),
        AttrMap::new(),
        vec![text("hello".to_string()), comment("aside".to_string())],
    );
    assert_eq!(
        root.pretty_print(),
        "<div>\n  hello\n  <!-- aside -->\n<\\div>\n"
    );
}

#[test]
fn value_accessor_has_no_inheritance() {
    let sheet = parse(String::from("div { color: red; }")).unwrap();
    let child = element_node("p", &[]);
    let root = elem("div".to_string(), AttrMap::new(), vec![child]);
    let styled = style_tree(&root, &sheet);
    assert_eq!(
        styled.value("color"),
        Some(Value::Keyword(String::from("red")))
    );
    // The child inherits nothing.
    assert_eq!(styled.children[0].value("color"), None);
}

#[test]
fn pretty_print_indents_nested_children() {
    let inner = elem("p".to_string(), AttrMap::new(), vec![text("x".to_string())]);
    let root = elem("div".to_string(), AttrMap::new(), vec![inner]);
    assert_eq!(
        root.pretty_print(),
        "<div>\n  <p>\n    x\n  <\\p>\n<\\div>\n"
    );
}

#[test]
fn universal_selector_matches_everything() {
    let sheet = parse(String::from("* { color: red; } p { color: blue; }")).unwrap();
    // The universal selector has specificity (0,0,0); the tag rule
    // outranks it on a p element.
    let p = element("p", &[]);
    let values = specified_values(&p, &sheet);
    assert_eq!(values.get("color"), Some(&Value::Keyword(String::from("blue"))));
    // Any other element still gets the universal rule.
    let div = element("div", &[]);
    let values = specified_values(&div, &sheet);
    assert_eq!(values.get("color"), Some(&Value::Keyword(String::from("red"))));
}

#[test]
fn compound_selector_specificity() {
    let sheet = parse(String::from("p.a#x { color: red; }")).unwrap();
    let e = element("p", &[("id", "x"), ("class", "a")]);
    let matched = match_rule(&e, &sheet.rules[0]).unwrap();
    assert_eq!(matched.0, (1, 1, 1));
    // Every component must match: without the class, the rule does not.
    let e = element("p", &[("id", "x")]);
    assert!(match_rule(&e, &sheet.rules[0]).is_none());
}

#[test]
fn mismatched_tags_fail_to_parse() {
    assert!(HtmlParser::parse(String::from("<div>hello</span>")).is_err());
    // Tag matching is case-insensitive.
    assert!(HtmlParser::parse(String::from("<DIV>hello</div>")).is_ok());
}

#[test]
fn multiple_roots_are_wrapped() {
    let root = HtmlParser::parse(String::from("<p>a</p><p>b</p>")).unwrap();
    match &root.node_type {
        webwraith::dom::NodeType::Element(e) => {
            assert_eq!(e.tag_name, "html".to_string());
        },
        _ => panic!("expected an element"),
    }
    assert_eq!(root.children.len(), 2);
}
