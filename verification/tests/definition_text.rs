use resource_pool::definition::{parse_definitions, Seed};
use resource_pool::lexer::{tokenize, Token};
use resource_pool::seeds::expand;
use resource_pool::value::ValueType;

fn kinds(text: &str) -> Option<Vec<String>> {
    tokenize(text.as_bytes()).map(|tokens| {
        tokens
            .iter()
            .map(|t| match t {
                Token::Open => "[".to_string(),
                Token::Close => "]".to_string(),
                Token::OpenBrace => "{".to_string(),
                Token::CloseBrace => "}".to_string(),
                Token::Equals => "=".to_string(),
                Token::Comma => ",".to_string(),
                Token::Newline => "\\n".to_string(),
                Token::Word(w) => format!("w:{w}"),
                Token::Text(t) => format!("t:{t}"),
            })
            .collect()
    })
}

#[test]
fn a_text_is_split_into_its_tokens() {
    assert_eq!(kinds(""), Some(vec![]));
    assert_eq!(kinds("  \t\r "), Some(vec![]));
    assert_eq!(kinds("# only a comment"), Some(vec![]));
    assert_eq!(
        kinds("[pool-1]\r\ntype = \"ipv4\" # the type\n"),
        Some(
            ["[", "w:pool-1", "]", "\\n", "w:type", "=", "t:ipv4", "\\n"]
                .iter()
                .map(|s| s.to_string())
                .collect()
        )
    );
    assert_eq!(
        kinds("{a=\"\",B_2=\"x y#z\"}"),
        Some(
            ["{", "w:a", "=", "t:", ",", "w:B_2", "=", "t:x y#z", "}"]
                .iter()
                .map(|s| s.to_string())
                .collect()
        )
    );
    assert_eq!(kinds("a # \u{e9} in a comment is passed over\nb").map(|k| k.len()), Some(3));
}

#[test]
fn a_byte_that_begins_no_token_is_refused() {
    assert_eq!(kinds("a.b"), None);
    assert_eq!(kinds("\"not closed"), None);
    assert_eq!(kinds("\"not closed\nin its line\""), None);
    assert_eq!(kinds("\"an \\\" escape\""), None);
    assert_eq!(kinds("\"\u{e9}\""), None);
    assert_eq!(kinds("caf\u{e9}"), None);
    assert_eq!(kinds("'single'"), None);
}

#[test]
fn the_sections_of_a_text_are_its_definitions() {
    let text = r#"

[first]   # the head of a section
prefix = "10.0.0.0/30"
type = "ipv4"

["second pool"]
type = "integer"

ranges = [ { start = "1", end = "3" },
           { end = "9", start = "7" }, ]
[third]
type = "string"
ranges = []
"#;
    let defs = parse_definitions(text.as_bytes()).unwrap();
    assert_eq!(defs.len(), 3);
    assert_eq!(defs[0].name, "first");
    assert_eq!(defs[0].value_type, ValueType::Ipv4);
    match &defs[0].seed {
        Seed::Prefix(p) => assert_eq!(p, "10.0.0.0/30"),
        Seed::Ranges(_) => panic!("a prefix was given"),
    }
    assert_eq!(defs[1].name, "second pool");
    assert_eq!(defs[1].value_type, ValueType::Integer);
    match &defs[1].seed {
        Seed::Ranges(r) => {
            assert_eq!(r.len(), 2);
            assert_eq!((r[0].start.as_str(), r[0].end.as_str()), ("1", "3"));
            assert_eq!((r[1].start.as_str(), r[1].end.as_str()), ("7", "9"));
        }
        Seed::Prefix(_) => panic!("ranges were given"),
    }
    assert_eq!(defs[2].name, "third");
    assert_eq!(defs[2].value_type, ValueType::String);

    assert_eq!(
        expand(defs[0].value_type, &defs[0].seed),
        Some(vec!["10.0.0.0".to_string(), "10.0.0.1".to_string(), "10.0.0.2".to_string()])
    );
    assert_eq!(
        expand(defs[1].value_type, &defs[1].seed),
        Some(vec!["1".to_string(), "2".to_string(), "7".to_string(), "8".to_string()])
    );
    assert_eq!(expand(defs[2].value_type, &defs[2].seed), Some(vec![]));
    // the same seed under another type
    assert_eq!(expand(ValueType::Integer, &defs[0].seed), None);
    assert_eq!(expand(ValueType::Ipv4, &defs[1].seed), None);
}

#[test]
fn a_text_without_sections_has_no_definitions() {
    assert_eq!(parse_definitions(b"").map(|d| d.len()), Some(0));
    assert_eq!(parse_definitions(b"\n\n# nothing\n").map(|d| d.len()), Some(0));
    assert!(parse_definitions(b"type = \"ipv4\"").is_none());
    assert!(parse_definitions(b"[a]\ntype = \"ipv4\"\nprefix = \"x\"\n[b]").is_none());
}

#[test]
fn ranges_of_addresses_stop_before_their_end() {
    let defs = parse_definitions(
        b"[a]\ntype = \"ipv4\"\nranges = [{ start = \"10.0.0.254\", end = \"10.0.1.2\" }, { start = \"1.1.1.1\", end = \"1.1.1.1\" }]",
    )
    .unwrap();
    assert_eq!(
        expand(defs[0].value_type, &defs[0].seed),
        Some(
            ["10.0.0.254", "10.0.0.255", "10.0.1.0", "10.0.1.1"]
                .iter()
                .map(|s| s.to_string())
                .collect()
        )
    );
}
