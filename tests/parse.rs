use rsx_parse::ast::{Node, Value, Values};
use rsx_parse::directory::{AttributeEntry, AttributeScope, Directory};
use rsx_parse::lexer::{tokenize, ErrorKind, Token};
use rsx_parse::parser::parse;
use rsx_parse::values::lex_values;

fn global(name: &'static str) -> AttributeEntry {
    AttributeEntry { scope: AttributeScope::Global, name, namespace: None, mapped_to: None }
}

fn directory() -> Directory {
    let mut d = Directory::new();
    for tag in ["div", "span", "input", "p"] {
        d.add_element(tag, None);
    }
    d.add_element("svg", Some("http://www.w3.org/2000/svg"));
    for name in ["width", "height", "color", "value"] {
        d.add_attribute(global(name));
    }
    d.add_attribute(AttributeEntry {
        scope: AttributeScope::Global,
        name: "r#type",
        namespace: None,
        mapped_to: Some("type"),
    });
    d.add_attribute(AttributeEntry {
        scope: AttributeScope::Global,
        name: "font_size",
        namespace: Some("style"),
        mapped_to: Some("font-size"),
    });
    d
}

fn slice(src: &str, start: usize, end: usize) -> String {
    src.chars().skip(start).take(end - start).collect()
}

fn printed(src: &str) -> String {
    let d = directory();
    parse(src, &d).unwrap().pretty_print()
}

#[test]
fn test_parse() {
    let d = directory();
    let src = r#"div{width: "{x}px"}"#;
    let tokens = tokenize(src, &d).unwrap();
    let mut it = tokens.iter();

    let t = it.next().unwrap();
    assert_eq!(t.token, Token::Element("div"));
    assert_eq!(slice(src, t.start, t.end), "div{");

    let t = it.next().unwrap();
    assert_eq!(t.token, Token::Attribute("width"));
    assert_eq!(slice(src, t.start, t.end), "width:");

    let t = it.next().unwrap();
    assert_eq!(
        t.token,
        Token::Values(Values(vec![Value::Variable("x"), Value::Constant("px")]))
    );
    assert_eq!(slice(src, t.start, t.end), r#""{x}px""#);

    let t = it.next().unwrap();
    assert_eq!(t.token, Token::ClosingBrace);
    assert_eq!(slice(src, t.start, t.end), "}");

    assert!(it.next().is_none());
}

#[test]
fn parse_rsx_1() {
    assert_eq!(
        printed(r#"rsx!{div{width: "100px",height: "*{x}px",span{color: "red","hello world"}}}"#),
        "rsx! {\n\tdiv {\n\t\twidth: \"100px\",\n\t\theight: \"*{!x!}px\",\n\t\tspan {\n\t\t\tcolor: \"red\",\n\t\t\t\"hello world\"\n\t\t}\n\t}\n}"
    );
}

#[test]
fn parse_rsx_2() {
    assert_eq!(
        printed(r#"rsx!{input{r#type: "text",value: "{{x}}px",}}"#),
        "rsx! {\n\tinput {\n\t\tr#type: \"text\",\n\t\tvalue: \"{{x}}px\",\n\t}\n}"
    );
}

#[test]
fn scenario_nested_tree() {
    let d = directory();
    let call =
        parse(r#"rsx!{div{width: "100px",height: "*{x}px",span{color: "red","hello world"}}}"#, &d)
            .unwrap();
    assert_eq!(call.0.len(), 1);
    let Node::Element(div) = &call.0[0] else { panic!("expected an element") };
    assert_eq!(div.tag, "div");
    assert_eq!(div.attributes.len(), 2);
    assert_eq!(div.attributes[0].name, "width");
    assert_eq!(div.attributes[0].value, Values(vec![Value::Constant("100px")]));
    assert_eq!(div.attributes[1].name, "height");
    assert_eq!(
        div.attributes[1].value,
        Values(vec![Value::Constant("*"), Value::Variable("x"), Value::Constant("px")])
    );
    assert_eq!(div.children.len(), 1);
    let Node::Element(span) = &div.children[0] else { panic!("expected an element") };
    assert_eq!(span.tag, "span");
    assert_eq!(span.attributes[0].name, "color");
    assert_eq!(span.attributes[0].value, Values(vec![Value::Constant("red")]));
    assert_eq!(span.children, vec![Node::Text(Values(vec![Value::Constant("hello world")]))]);
}

#[test]
fn scenario_doubled_braces_stay_constant() {
    let d = directory();
    let call = parse(r#"rsx!{input{r#type: "text",value: "{{x}}px",}}"#, &d).unwrap();
    let Node::Element(input) = &call.0[0] else { panic!("expected an element") };
    assert_eq!(input.attributes[1].name, "value");
    assert_eq!(
        input.attributes[1].value,
        Values(vec![
            Value::Constant("{{"),
            Value::Constant("x"),
            Value::Constant("}}"),
            Value::Constant("px")
        ])
    );
    assert_eq!(input.attributes[1].value.to_string(), "\"{{x}}px\"");
}

#[test]
fn scenario_unknown_element() {
    let d = directory();
    let e = parse("rsx!{frobnicate{}}", &d).unwrap_err();
    assert_eq!(e.kind, ErrorKind::UnknownElement("frobnicate"));
    assert_eq!(e.span, "frobnicate{");
    assert_eq!(e.offset, 5);
    assert_eq!(e.byte_offset, 5);
}

#[test]
fn scenario_unterminated_literal() {
    let d = directory();
    let e = parse(r#"rsx!{div{width: "100px}"#, &d).unwrap_err();
    assert_eq!(e.kind, ErrorKind::UnterminatedLiteral);
    assert_eq!(e.offset, 16);
    assert_eq!(e.span, "\"100px}");
}

#[test]
fn unknown_attribute_is_named() {
    let d = directory();
    let e = parse(r#"rsx!{div{colour: "red",}}"#, &d).unwrap_err();
    assert_eq!(e.kind, ErrorKind::UnknownAttribute("colour"));
    assert_eq!(e.span, "colour:");
}

#[test]
fn missing_comma_is_structural() {
    let d = directory();
    let e = parse(r#"rsx!{div{width: "1px" }}"#, &d).unwrap_err();
    assert_eq!(e.kind, ErrorKind::StructuralError);
    assert_eq!(e.span, "}");
    assert_eq!(e.offset, 22);
}

#[test]
fn unclosed_element_fails_at_end() {
    let d = directory();
    let e = parse("rsx!{div{", &d).unwrap_err();
    assert_eq!(e.kind, ErrorKind::StructuralError);
    assert_eq!(e.offset, 9);
    assert_eq!(e.span, "");
}

#[test]
fn missing_prefix_fails() {
    let d = directory();
    assert_eq!(parse("", &d).unwrap_err().kind, ErrorKind::StructuralError);
    let e = parse("div{}", &d).unwrap_err();
    assert_eq!(e.kind, ErrorKind::StructuralError);
    assert_eq!(e.span, "div{");
}

#[test]
fn trailing_tokens_fail() {
    let d = directory();
    let e = parse("rsx!{} ,", &d).unwrap_err();
    assert_eq!(e.kind, ErrorKind::StructuralError);
    assert_eq!(e.span, ",");
}

#[test]
fn stray_character_is_lex_error() {
    let d = directory();
    let e = parse("rsx!{ @ }", &d).unwrap_err();
    assert_eq!(e.kind, ErrorKind::LexError);
    assert_eq!(e.span, "@");
    assert_eq!(e.offset, 6);
}

#[test]
fn lone_brace_in_literal_is_lex_error() {
    let d = directory();
    let e = parse(r#"rsx!{"a}b"}"#, &d).unwrap_err();
    assert_eq!(e.kind, ErrorKind::LexError);
    assert_eq!(e.offset, 7);
}

#[test]
fn raw_literal_body() {
    let d = directory();
    let call = parse(r####"rsx!{p{r##"say #{n}#"##}}"####, &d).unwrap();
    let Node::Element(p) = &call.0[0] else { panic!("expected an element") };
    assert_eq!(
        p.children,
        vec![Node::Text(Values(vec![
            Value::Constant("say #"),
            Value::Variable("n"),
            Value::Constant("#")
        ]))]
    );
}

#[test]
fn quote_inside_raw_literal_is_lex_error() {
    let d = directory();
    let e = parse(r###"rsx!{r#"a"b"#}"###, &d).unwrap_err();
    assert_eq!(e.kind, ErrorKind::LexError);
    assert_eq!(e.offset, 9);
}

#[test]
fn raw_literal_unterminated() {
    let d = directory();
    let e = parse(r##"rsx!{r#"abc"}"##, &d).unwrap_err();
    assert_eq!(e.kind, ErrorKind::UnterminatedLiteral);
    assert_eq!(e.offset, 5);
}

#[test]
fn empty_call_prints() {
    assert_eq!(printed("rsx! {  }"), "rsx! {\n}");
}

#[test]
fn text_and_elements_interleave() {
    assert_eq!(
        printed(r#"rsx!{ "a" p{} "b{n:>}" }"#),
        "rsx! {\n\t\"a\"\n\tp {\n\t}\n\t\"b{!n:>!}\"\n}"
    );
}

#[test]
fn printing_twice_gives_the_same_text() {
    let d = directory();
    let call = parse(r#"rsx!{div{width: "{w}",span{"x"}}}"#, &d).unwrap();
    assert_eq!(call.pretty_print(), call.pretty_print());
}

#[test]
fn segments_of_plain_and_placeholders() {
    let vs = lex_values("*{x}px").unwrap();
    assert_eq!(vs, Values(vec![Value::Constant("*"), Value::Variable("x"), Value::Constant("px")]));
    assert_eq!(lex_values("").unwrap(), Values(vec![]));
    assert_eq!(lex_values("{a:?}").unwrap(), Values(vec![Value::Variable("a:?")]));
    assert_eq!(lex_values("{a:#?}").unwrap(), Values(vec![Value::Variable("a:#?")]));
    assert_eq!(lex_values("{w:*^}").unwrap(), Values(vec![Value::Variable("w:*^")]));
    assert_eq!(lex_values("{{{").unwrap(), Values(vec![Value::Constant("{{{")]));
    assert_eq!(lex_values("a b\t").unwrap(), Values(vec![Value::Constant("a b\t")]));
}

#[test]
fn segment_errors_give_position() {
    assert_eq!(lex_values("ab{").unwrap_err(), 2);
    assert_eq!(lex_values("x}y").unwrap_err(), 1);
    assert_eq!(lex_values("{ x}").unwrap_err(), 0);
}

#[test]
fn placeholder_never_takes_a_closing_brace() {
    assert_eq!(lex_values("{x}}").unwrap_err(), 3);
    assert_eq!(lex_values("{x:}}").unwrap_err(), 4);
    assert_eq!(lex_values("{x:{}").unwrap_err(), 0);
    assert_eq!(
        lex_values("{x}}}").unwrap(),
        Values(vec![Value::Variable("x"), Value::Constant("}}")])
    );
    assert_eq!(lex_values("{x:0>}").unwrap(), Values(vec![Value::Variable("x:0>")]));
    assert_eq!(lex_values("{x0}").unwrap(), Values(vec![Value::Variable("x0")]));
}

#[test]
fn placeholder_names_beyond_ascii() {
    assert_eq!(lex_values("{é}").unwrap(), Values(vec![Value::Variable("é")]));
    assert_eq!(lex_values("a{größe}").unwrap(), Values(vec![Value::Constant("a"), Value::Variable("größe")]));
    assert_eq!(lex_values("{→}").unwrap_err(), 0);
}

#[test]
fn error_offsets_in_bytes_and_characters() {
    let d = directory();
    let src = "rsx!{\"é\" @}";
    let e = parse(src, &d).unwrap_err();
    assert_eq!(e.kind, ErrorKind::LexError);
    assert_eq!(e.span, "@");
    assert_eq!(e.offset, 9);
    assert_eq!(e.byte_offset, 10);
    assert_eq!(&src[e.byte_offset..e.byte_offset + 1], "@");
}

#[test]
fn segments_reassemble() {
    for body in ["*{x}px", "{{x}}px", "plain", "{a}{b}", "é{ü}ß", "}}{{"] {
        let vs = lex_values(body).unwrap();
        let joined: String = vs.0.iter().map(|v| v.to_string()).collect();
        assert_eq!(joined, body);
    }
}

#[test]
fn value_strings() {
    assert_eq!(Value::Constant("ab").to_string(), "ab");
    assert_eq!(Value::Variable("x:>").to_string(), "{x:>}");
    assert_eq!(Values(vec![Value::Constant("a"), Value::Variable("b")]).to_string(), "\"a{!b!}\"");
}

#[test]
fn scope_resolution_by_tag() {
    let mut d = Directory::new();
    let x = AttributeEntry {
        scope: AttributeScope::Specific("div"),
        name: "a",
        namespace: None,
        mapped_to: Some("x"),
    };
    let y = AttributeEntry {
        scope: AttributeScope::Specific("span"),
        name: "a",
        namespace: Some("ns"),
        mapped_to: Some("y"),
    };
    d.add_attribute(x);
    d.add_attribute(y);
    assert_eq!(d.resolve("a", "div"), Some(x));
    assert_eq!(d.resolve("a", "span"), Some(y));
    assert_eq!(d.resolve("a", "p"), None);
    assert_eq!(d.resolve("b", "div"), None);
    assert_eq!(d.attribute_entries("a").unwrap().clone(), vec![x, y]);
    assert!(d.has_attribute("a"));
    assert!(!d.has_attribute("b"));
}

#[test]
fn first_applicable_entry_wins() {
    let mut d = Directory::new();
    let g = AttributeEntry { scope: AttributeScope::Global, name: "a", namespace: None, mapped_to: None };
    let s = AttributeEntry { scope: AttributeScope::Specific("div"), name: "a", namespace: Some("n"), mapped_to: None };
    d.add_attribute(g);
    d.add_attribute(s);
    assert_eq!(d.resolve("a", "div"), Some(g));
}

#[test]
fn element_namespaces() {
    let d = directory();
    assert_eq!(d.element_namespace("svg"), Some(Some("http://www.w3.org/2000/svg")));
    assert_eq!(d.element_namespace("div"), Some(None));
    assert_eq!(d.element_namespace("frobnicate"), None);
    assert!(d.has_element("span"));
}
