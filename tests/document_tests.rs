use rxml::api::XMLNode;
use rxml::error::{ParseError, TagParseError};
use rxml::parsedoc::{DocToken, TokenKind, XMLLexer};
use rxml::parsetag::{TagKind, TagParser};
use rxml::RXML;

fn parse(text: &str) -> Result<XMLNode, ParseError> {
    RXML::new(String::from(text)).parse()
}

#[test]
fn nested_elements_mirror_the_source() {
    let root = parse("<a><b><c></c></b><d></d></a>").unwrap();
    assert_eq!(root.tag.name, "a");
    assert_eq!(root.children.len(), 2);
    assert_eq!(root.children[0].tag.name, "b");
    assert_eq!(root.children[0].children.len(), 1);
    assert_eq!(root.children[0].children[0].tag.name, "c");
    assert_eq!(root.children[1].tag.name, "d");
    assert_eq!(root.children[1].children.len(), 0);
    assert_eq!(root.children[0].tag._pos, 3);
    assert_eq!(root.children[1].tag._pos, 17);
}

#[test]
fn tag_attributes_with_both_quote_styles() {
    let tag = TagParser::new("<name k1='v1' k2=\"v2\">").parse().unwrap();
    assert_eq!(tag.name, "name");
    assert_eq!(tag.kind, TagKind::Opening);
    assert_eq!(tag.attribs.len(), 2);
    assert_eq!(tag.attribs.get("k1").unwrap(), "v1");
    assert_eq!(tag.attribs.get("k2").unwrap(), "v2");
}

#[test]
fn repeated_attribute_keeps_last_value() {
    let tag = TagParser::new("<n k='first' k=\"second\">").parse().unwrap();
    assert_eq!(tag.attribs.len(), 1);
    assert_eq!(tag.attribs.get("k").unwrap(), "second");
}

#[test]
fn mismatched_closing_tag() {
    match parse("<a></b>") {
        Err(ParseError::UnexpectedClosingTag { expected, obtained, position }) => {
            assert_eq!(expected, "a");
            assert_eq!(obtained, "b");
            assert_eq!(position, 0);
        }
        other => panic!("expected UnexpectedClosingTag, got {:?}", other),
    }
}

#[test]
fn closing_tag_without_opening() {
    match parse("</a>") {
        Err(ParseError::ClosingTagNeverOpened { obtained, position }) => {
            assert_eq!(obtained, "a");
            assert_eq!(position, 0);
        }
        other => panic!("expected ClosingTagNeverOpened, got {:?}", other),
    }
}

#[test]
fn closing_tag_after_root_closed() {
    match parse("<a></a> </b>") {
        Err(ParseError::ClosingTagNeverOpened { obtained, position }) => {
            assert_eq!(obtained, "b");
            assert_eq!(position, 8);
        }
        other => panic!("expected ClosingTagNeverOpened, got {:?}", other),
    }
}

#[test]
fn unterminated_bracket_reports_its_offset() {
    match parse("<a") {
        Err(ParseError::UnterminatedAngularBracket(pos)) => assert_eq!(pos, 0),
        other => panic!("expected UnterminatedAngularBracket, got {:?}", other),
    }
    match parse("<a>  <b") {
        Err(ParseError::UnterminatedAngularBracket(pos)) => assert_eq!(pos, 5),
        other => panic!("expected UnterminatedAngularBracket, got {:?}", other),
    }
}

#[test]
fn missing_value_names_string_literal_on_the_right() {
    match TagParser::new("<tag attr=>").parse() {
        Err(TagParseError::NoTokenAtLocation { expected_kind, direction, current }) => {
            assert_eq!(expected_kind, "StringLiteral");
            assert_eq!(direction, "right");
            assert_eq!(current, "Equals");
        }
        other => panic!("expected NoTokenAtLocation, got {:?}", other),
    }
}

#[test]
fn missing_name_names_string_on_the_left() {
    match TagParser::new("<tag = 'v'>").parse() {
        Err(TagParseError::NoTokenAtLocation { expected_kind, direction, current }) => {
            assert_eq!(expected_kind, "String");
            assert_eq!(direction, "left");
            assert_eq!(current, "Equals");
        }
        other => panic!("expected NoTokenAtLocation, got {:?}", other),
    }
}

#[test]
fn tag_errors_are_wrapped_by_the_document_parser() {
    match parse("<a><tag attr=></a>") {
        Err(ParseError::TagParseError(TagParseError::NoTokenAtLocation { direction, .. })) => {
            assert_eq!(direction, "right");
        }
        other => panic!("expected a wrapped tag error, got {:?}", other),
    }
    match parse("<a x='open></a>") {
        Err(ParseError::TagParseError(TagParseError::UnterminatedStringLiteral(loc))) => {
            assert_eq!(loc, 4)
        }
        other => panic!("expected a wrapped literal error, got {:?}", other),
    }
}

#[test]
fn invalid_first_tag_token() {
    for text in ["<>", "< >", "<=>", "</>", "<'a'>", "</ 'a'>"] {
        match TagParser::new(text).parse() {
            Err(TagParseError::InvalidFirstToken) => {}
            other => panic!("expected InvalidFirstToken for {:?}, got {:?}", text, other),
        }
    }
}

#[test]
fn empty_document_has_no_tokens() {
    assert!(matches!(parse(""), Err(ParseError::NoTokensToParse)));
    assert!(matches!(parse("  \n\t "), Err(ParseError::NoTokensToParse)));
}

#[test]
fn document_must_start_with_a_tag() {
    assert!(matches!(parse("hello <a></a>"), Err(ParseError::InvalidFirstToken)));
    assert!(matches!(parse("   hello"), Err(ParseError::InvalidFirstToken)));
}

#[test]
fn leading_white_space_is_skipped() {
    let root = parse("  \n <a>x</a>").unwrap();
    assert_eq!(root.tag.name, "a");
    assert_eq!(root.tag._pos, 4);
    assert_eq!(root.content, "x");
}

#[test]
fn content_runs_are_concatenated_without_white_space() {
    let root = parse("<p> Hello   big <b>bold</b> world! </p>").unwrap();
    assert_eq!(root.content, "Hellobigworld!");
    assert_eq!(root.children.len(), 1);
    assert_eq!(root.children[0].content, "bold");
}

#[test]
fn text_run_reaching_end_of_input() {
    let root = parse("<a>tail").unwrap();
    assert_eq!(root.content, "tail");
}

#[test]
fn unclosed_elements_are_kept() {
    let root = parse("<a><b>x<c>y").unwrap();
    assert_eq!(root.tag.name, "a");
    assert_eq!(root.children.len(), 1);
    assert_eq!(root.children[0].tag.name, "b");
    assert_eq!(root.children[0].content, "x");
    assert_eq!(root.children[0].children[0].tag.name, "c");
    assert_eq!(root.children[0].children[0].content, "y");
}

#[test]
fn content_after_root_is_ignored() {
    let root = parse("<a>in</a> out <b>more</b>").unwrap();
    assert_eq!(root.tag.name, "a");
    assert_eq!(root.content, "in");
    assert_eq!(root.children.len(), 0);
}

#[test]
fn attributes_reach_the_node() {
    let root = parse("<person name='John' age=\"55\">David</person>").unwrap();
    assert_eq!(root.tag.attributes.get("name").unwrap(), "John");
    assert_eq!(root.tag.attributes.get("age").unwrap(), "55");
    assert!(root.tag.attributes.get("ssn").is_none());
    assert_eq!(root.content, "David");
}

#[test]
fn non_ascii_names_and_content() {
    let root = parse("<données clé='été'>café crème</données>").unwrap();
    assert_eq!(root.tag.name, "données");
    assert_eq!(root.tag.attributes.get("clé").unwrap(), "été");
    assert_eq!(root.content, "cafécrème");
}

#[test]
fn names_stop_at_non_alphanumeric_characters() {
    let tag = TagParser::new("<a1_b-c>").parse().unwrap();
    assert_eq!(tag.name, "a1_b");
}

#[test]
fn retokenizing_gives_the_same_tokens() {
    let text = "<xml a='1'> text <b/> </xml>";
    let run = || {
        let mut lexer = XMLLexer::new(text);
        let mut out: Vec<DocToken> = Vec::new();
        loop {
            let t = lexer.next_token().unwrap();
            if let TokenKind::EndOfFile = t.kind {
                break;
            }
            out.push(t);
        }
        out
    };
    let first = run();
    let second = run();
    assert_eq!(first.len(), 7);
    assert_eq!(first, second);
}

#[test]
fn offsets_count_bytes() {
    let root = parse("<é><b></b></é>").unwrap();
    assert_eq!(root.tag._pos, 0);
    assert_eq!(root.children[0].tag._pos, 4);
    match parse("<é> <b") {
        Err(ParseError::UnterminatedAngularBracket(pos)) => assert_eq!(pos, 5),
        other => panic!("expected UnterminatedAngularBracket, got {:?}", other),
    }
    match parse("<é></ü>") {
        Err(ParseError::UnexpectedClosingTag { expected, obtained, position }) => {
            assert_eq!(expected, "é");
            assert_eq!(obtained, "ü");
            assert_eq!(position, 0);
        }
        other => panic!("expected UnexpectedClosingTag, got {:?}", other),
    }
    let mut lexer = XMLLexer::new("日本 <x>");
    let first = lexer.next_token().unwrap();
    assert_eq!(first.text, "日本");
    assert_eq!(first.position, 0);
    let space = lexer.next_token().unwrap();
    assert_eq!(space.position, 6);
    let tag = lexer.next_token().unwrap();
    assert_eq!(tag.position, 7);
    let end = lexer.next_token().unwrap();
    assert!(matches!(end.kind, TokenKind::EndOfFile));
    assert_eq!(end.position, 10);
}

#[test]
fn literal_offsets_count_bytes_in_tag_text() {
    match TagParser::new("<ä x='open>").parse() {
        Err(TagParseError::UnterminatedStringLiteral(loc)) => assert_eq!(loc, 5),
        other => panic!("expected UnterminatedStringLiteral, got {:?}", other),
    }
}

#[test]
fn attribute_equality_ignores_order() {
    use_attrs();
}

fn use_attrs() {
    let a = TagParser::new("<t x='1' y='2'>").parse().unwrap();
    let b = TagParser::new("<t y='2' x='1'>").parse().unwrap();
    assert_eq!(a.attribs, b.attribs);
    let c = TagParser::new("<t y='2' x='3'>").parse().unwrap();
    assert_ne!(a.attribs, c.attribs);
    let d = TagParser::new("<t x='1'>").parse().unwrap();
    assert_ne!(a.attribs, d.attribs);
}

#[test]
fn nodes_compare_by_tag_content_and_children() {
    let a = parse("<a x='1' y='2'>t<b>u</b></a>").unwrap();
    let b = parse("<a x='1' y='2'>t<b>u</b></a>").unwrap();
    assert!(a == b);
    let c = parse("<a y='2' x='1'>t<b>u</b></a>").unwrap();
    assert!(a == c);
    let d = parse("<a x='1' y='2'>t<b>v</b></a>").unwrap();
    assert!(a != d);
    let e = parse("<a x='1' y='2'>t<c>u</c></a>").unwrap();
    assert!(a != e);
    let f = parse(" <a x='1' y='2'>t<b>u</b></a>").unwrap();
    assert!(a.tag != f.tag);
}

#[test]
fn fresh_lexers_repeat_results_and_errors() {
    let text = "<a> t <b x=> <c";
    let run = || {
        let mut lexer = XMLLexer::new(text);
        let mut out: Vec<Result<DocToken, String>> = Vec::new();
        for _ in 0..8 {
            out.push(lexer.next_token().map_err(|e| e.message()));
        }
        out
    };
    let first = run();
    let second = run();
    assert_eq!(first, second);
    assert_eq!(
        first[4],
        Err(String::from("Expected StringLiteral on the right of Equals token but found nothing"))
    );
    assert_eq!(first[6], Err(String::from("Unterminated angular bracket, found at location 13")));
    assert!(matches!(first[7].as_ref().unwrap().kind, TokenKind::EndOfFile));
}
