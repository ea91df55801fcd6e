use rxml::attributes::Attributes;
use rxml::error::ParseError;
use rxml::parsedoc::{DocToken, TokenKind, XMLLexer};
use rxml::parsetag::{TagKind, XMLTag};

#[test]
fn test_tag_tokenization_success() {
    let text = "<xml> </tag1></tag2> <xml>";

    let mut test_lexer = XMLLexer::new(text);
    let mut obtained_tokens: Vec<DocToken> = Vec::new();

    while let Ok(tkn) = test_lexer.next_token() {
        match tkn.kind {
            TokenKind::EndOfFile => break,
            TokenKind::Whitespace => {}
            _ => obtained_tokens.push(tkn),
        }
    }

    let actual_tokens = vec![
        DocToken::new(
            "<xml>",
            TokenKind::Tag(XMLTag::new(
                String::from("xml"),
                Attributes::new(),
                TagKind::Opening,
                0,
            )),
            0,
        ),
        DocToken::new(
            "</tag1>",
            TokenKind::Tag(XMLTag::new(
                String::from("tag1"),
                Attributes::new(),
                TagKind::Closing,
                6,
            )),
            6,
        ),
        DocToken::new(
            "</tag2>",
            TokenKind::Tag(XMLTag::new(
                String::from("tag2"),
                Attributes::new(),
                TagKind::Closing,
                13,
            )),
            13,
        ),
        DocToken::new(
            "<xml>",
            TokenKind::Tag(XMLTag::new(
                String::from("xml"),
                Attributes::new(),
                TagKind::Opening,
                21,
            )),
            21,
        ),
    ];

    assert_eq!(obtained_tokens, actual_tokens);
}

#[test]
fn test_tag_tokenization_failure_unterminated_angular_bracket() {
    let text = "<xml> <oopsi problem here";

    let mut test_lexer = XMLLexer::new(text);

    test_lexer.next_token().unwrap();
    test_lexer.next_token().unwrap();

    match test_lexer.next_token() {
        Ok(tkn) => panic!("Expected UnterminatedAngularBracket, got token: {:?}", tkn),
        Err(e) => match e {
            ParseError::UnterminatedAngularBracket(pos) => {
                assert_eq!(pos, 6)
            }
            _ => panic!("Expected UnterminatedAngularBracket, got Err({:?})", e),
        },
    }
}

#[test]
fn test_xml_tokenization() {
    let text = "<xml> < person  age='55'  > David   < / person >< / xml  >";

    let mut test_lexer = XMLLexer::new(text);
    let mut parsed_tokens: Vec<DocToken> = Vec::new();

    while let Ok(token) = test_lexer.next_token() {
        match token.kind {
            TokenKind::Whitespace => {}
            TokenKind::EndOfFile => {
                break;
            }
            _ => parsed_tokens.push(token),
        }
    }

    let mut person_attribs = Attributes::new();
    person_attribs.insert(String::from("age"), String::from("55"));

    let actual_tokens = vec![
        DocToken::new(
            "<xml>",
            TokenKind::Tag(XMLTag::new(
                String::from("xml"),
                Attributes::new(),
                TagKind::Opening,
                0,
            )),
            0,
        ),
        DocToken::new(
            "< person  age='55'  >",
            TokenKind::Tag(XMLTag::new(
                String::from("person"),
                person_attribs,
                TagKind::Opening,
                6,
            )),
            6,
        ),
        DocToken::new("David", TokenKind::String, 28),
        DocToken::new(
            "< / person >",
            TokenKind::Tag(XMLTag::new(
                String::from("person"),
                Attributes::new(),
                TagKind::Closing,
                36,
            )),
            36,
        ),
        DocToken::new(
            "< / xml  >",
            TokenKind::Tag(XMLTag::new(
                String::from("xml"),
                Attributes::new(),
                TagKind::Closing,
                48,
            )),
            48,
        ),
    ];
    assert_eq!(parsed_tokens, actual_tokens);
}
