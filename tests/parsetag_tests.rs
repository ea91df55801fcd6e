use rxml::attributes::Attributes;
use rxml::error::TagParseError;
use rxml::parsetag::{TagKind, TagLexer, TagParser, TagToken, TokenKind, XMLTag};

#[test]
fn test_string_tokenization() {
    let text = "tagname string1 __string2 _string_3_";

    let actual_tokens = vec![
        TagToken::new("tagname", TokenKind::String, 0),
        TagToken::new(" ", TokenKind::Whitespace, 7),
        TagToken::new("string1", TokenKind::String, 8),
        TagToken::new(" ", TokenKind::Whitespace, 15),
        TagToken::new("__string2", TokenKind::String, 16),
        TagToken::new(" ", TokenKind::Whitespace, 25),
        TagToken::new("_string_3_", TokenKind::String, 26),
    ];

    let mut test_lexer = TagLexer::new(text);
    let mut tokens: Vec<TagToken> = Vec::new();

    while let Ok(token) = test_lexer.next_token() {
        if let TokenKind::EndOfLine = token.kind {
            break;
        }
        tokens.push(token);
    }

    assert_eq!(tokens, actual_tokens);
}

#[test]
fn test_string_literal_tokenization() {
    let text = "'literal1' 'literal2''literal3' \"literal4\"\"literal5\"";

    let mut test_lexer = TagLexer::new(text);
    let mut obtained_tokens: Vec<TagToken> = Vec::new();

    let actual_tokens = vec![
        TagToken::new("'literal1'", TokenKind::StringLiteral, 0),
        TagToken::new("'literal2'", TokenKind::StringLiteral, 11),
        TagToken::new("'literal3'", TokenKind::StringLiteral, 21),
        TagToken::new("\"literal4\"", TokenKind::StringLiteral, 32),
        TagToken::new("\"literal5\"", TokenKind::StringLiteral, 42),
    ];

    while let Ok(token) = test_lexer.next_token() {
        if let TokenKind::EndOfLine = token.kind {
            break;
        } else if let TokenKind::Whitespace = token.kind {
            continue;
        }
        obtained_tokens.push(token);
    }
    assert_eq!(obtained_tokens, actual_tokens);
}

#[test]
fn test_equals_tokenization() {
    let text = "= == ===";

    let mut test_lexer = TagLexer::new(text);

    let mut obtained_tokens: Vec<TagToken> = Vec::new();

    let actual_tokens = vec![
        TagToken::new("=", TokenKind::Equals, 0),
        TagToken::new("=", TokenKind::Equals, 2),
        TagToken::new("=", TokenKind::Equals, 3),
        TagToken::new("=", TokenKind::Equals, 5),
        TagToken::new("=", TokenKind::Equals, 6),
        TagToken::new("=", TokenKind::Equals, 7),
    ];

    while let Ok(token) = test_lexer.next_token() {
        if let TokenKind::Whitespace = token.kind {
            continue;
        } else if let TokenKind::EndOfLine = token.kind {
            break;
        }
        obtained_tokens.push(token);
    }

    assert_eq!(obtained_tokens, actual_tokens);
}

#[test]
fn test_forward_slash_tokenization() {
    let text = "/ // ///";

    let mut test_lexer = TagLexer::new(text);

    let mut obtained_tokens: Vec<TagToken> = Vec::new();

    let actual_tokens = vec![
        TagToken::new("/", TokenKind::ForwardSlash, 0),
        TagToken::new("/", TokenKind::ForwardSlash, 2),
        TagToken::new("/", TokenKind::ForwardSlash, 3),
        TagToken::new("/", TokenKind::ForwardSlash, 5),
        TagToken::new("/", TokenKind::ForwardSlash, 6),
        TagToken::new("/", TokenKind::ForwardSlash, 7),
    ];

    while let Ok(token) = test_lexer.next_token() {
        if let TokenKind::Whitespace = token.kind {
            continue;
        } else if let TokenKind::EndOfLine = token.kind {
            break;
        }
        obtained_tokens.push(token);
    }

    assert_eq!(obtained_tokens, actual_tokens);
}

#[test]
fn test_tag_lexer() {
    let text = "tagname attribute1 = 'value1'";

    let actual_tokens = vec![
        TagToken::new("tagname", TokenKind::String, 0),
        TagToken::new(" ", TokenKind::Whitespace, 7),
        TagToken::new("attribute1", TokenKind::String, 8),
        TagToken::new(" ", TokenKind::Whitespace, 18),
        TagToken::new("=", TokenKind::Equals, 19),
        TagToken::new(" ", TokenKind::Whitespace, 20),
        TagToken::new("'value1'", TokenKind::StringLiteral, 21),
    ];

    let mut obtained_tokens: Vec<TagToken> = Vec::new();
    let mut test_lexer = TagLexer::new(text);

    while let Ok(token) = test_lexer.next_token() {
        if let TokenKind::EndOfLine = token.kind {
            break;
        }
        obtained_tokens.push(token);
    }
    assert_eq!(obtained_tokens, actual_tokens);
}

#[test]
fn test_closing_tag_lexer() {
    let text = "/tagname";
    let actual_tokens = vec![
        TagToken::new("/", TokenKind::ForwardSlash, 0),
        TagToken::new("tagname", TokenKind::String, 1),
    ];

    let mut test_lexer = TagLexer::new(text);
    let mut obtained_tokens: Vec<TagToken> = Vec::new();
    while let Ok(token) = test_lexer.next_token() {
        if let TokenKind::EndOfLine = token.kind {
            break;
        }
        obtained_tokens.push(token);
    }
    assert_eq!(actual_tokens, obtained_tokens);
}

#[test]
fn test_opening_tag_parser_success() {
    let text = "<tagname attribute1='value1'>";

    let test_parser = TagParser::new(text);
    let test_tag = test_parser.parse().unwrap();

    let mut actual_attribs = Attributes::new();

    actual_attribs.insert(String::from("attribute1"), String::from("value1"));

    assert_eq!(test_tag.name, String::from("tagname"));
    assert_eq!(test_tag.attribs, actual_attribs);
}

#[test]
fn test_opening_tag_parser_failure() {
    let text = "<tagname attribute1 = 'oopsie no closing quote>";

    let test_parser = TagParser::new(text);

    match test_parser.parse() {
        Ok(_tag) => panic!("Blimey mate it was supposed to fail 'ere"),
        Err(e) => match e {
            TagParseError::UnterminatedStringLiteral(_loc) => {}
            _ => {
                panic!(
                    "Bugger, got wrong error, expected UnterminatedStringLiteral, got {:?}",
                    e
                )
            }
        },
    }
}

#[test]
fn test_closing_tag_parser_success() {
    let text = "</tagname>";

    let test_parser = TagParser::new(text);
    let test_tag = test_parser.parse().unwrap();

    assert_eq!(test_tag.name, "tagname");

    match test_tag.kind {
        TagKind::Closing => {}
        _ => panic!("Inputted closing tag string, got opening tag output"),
    }
}

#[test]
fn test_tag_attribute_parsing_success() {
    let text = "<person name='John' age=\"55\" ssn='67771020'>";

    let test_parser = TagParser::new(text);

    let obtained_tag = test_parser.parse().unwrap();

    let mut attribs = Attributes::new();
    attribs.insert(String::from("name"), String::from("John"));
    attribs.insert(String::from("age"), String::from("55"));
    attribs.insert(String::from("ssn"), String::from("67771020"));
    let actual_tag = XMLTag::new(String::from("person"), attribs, TagKind::Opening, 0);

    assert_eq!(obtained_tag.name, actual_tag.name);
    assert_eq!(obtained_tag.attribs, actual_tag.attribs);
    assert_eq!(obtained_tag.kind, actual_tag.kind);
}

#[test]
fn test_attribute_parsing_failure_no_token_on_right() {
    let text = "<tagname attrib1=>";

    let test_parser = TagParser::new(text);

    match test_parser.parse() {
        Ok(tag) => panic!("Expected NoTokenAtLocation, got tag: {:?}", tag),
        Err(e) => match e {
            TagParseError::NoTokenAtLocation {
                expected_kind: _,
                direction: _,
                current: _,
            } => {}
            _ => panic!("Expected NoTokenAtLocation got Err({:?})", e),
        },
    }
}

#[test]
fn test_attribute_parsing_failure_no_token_on_left() {
    let text = "<tagname = 'attrib'>";

    let test_parser = TagParser::new(text);

    match test_parser.parse() {
        Ok(tag) => panic!("Expected NoTokenAtLocation, got tag: {:?}", tag),
        Err(e) => match e {
            TagParseError::NoTokenAtLocation {
                expected_kind: _,
                direction: _,
                current: _,
            } => {}
            _ => panic!("Expected NoTokenAtLocation, got Err({:?})", e),
        },
    }
}

#[test]
fn test_attribute_parsing_failure_wrong_token_on_left() {
    let text = "<tagname 'attrib1' = 'attrib2'>";

    let test_parser = TagParser::new(text);

    match test_parser.parse() {
        Ok(tag) => panic!("Expected UnexpectedTagToken, got tag: {:?}", tag),
        Err(e) => match e {
            TagParseError::UnexpectedTagToken => {}
            _ => panic!("Expected UnexpectedTagToken got: Err({:?})", e),
        },
    }
}

#[test]
fn test_attribute_parsing_failure_wrong_token_on_right() {
    let text = "<tagname var1 = oopsie_wongr_heer>";

    let test_parser = TagParser::new(text);

    match test_parser.parse() {
        Ok(tag) => panic!("Expected UnexpectedTagToken, got tag: {:?}", tag),
        Err(e) => match e {
            TagParseError::UnexpectedTagToken => {}
            _ => panic!("Expected UnexpectedTagToken got: Err({:?})", e),
        },
    }
}
