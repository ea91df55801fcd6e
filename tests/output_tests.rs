use rxml::error::{ParseError, TagParseError};
use rxml::RXML;

#[test]
fn pretty_format_lists_nodes_depth_first() {
    let root = RXML::new(String::from("<a x='1'><b>hi</b><c></c></a>")).parse().unwrap();
    assert_eq!(
        root.pretty_format(),
        "<a {\"x\": \"1\"}>\n <c {}>\n <b {}> 'hi'\n"
    );
}

#[test]
fn pretty_format_escapes_quotes_in_values() {
    let root = RXML::new(String::from("<a q='say \"hi\"' p=\"back\\slash\"></a>")).parse().unwrap();
    assert_eq!(
        root.pretty_format(),
        "<a {\"q\": \"say \\\"hi\\\"\", \"p\": \"back\\\\slash\"}>\n"
    );
}

#[test]
fn pretty_format_indents_by_depth() {
    let root = RXML::new(String::from("<a><b><c>deep</c></b></a>")).parse().unwrap();
    assert_eq!(root.pretty_format(), "<a {}>\n <b {}>\n  <c {}> 'deep'\n");
}

#[test]
fn document_error_messages() {
    let e = RXML::new(String::from("<a></b>")).parse().unwrap_err();
    assert_eq!(e.message(), "Unexpected closing tag at location 0, expected: a, obtained: b");
    let e = RXML::new(String::from("</a>")).parse().unwrap_err();
    assert_eq!(e.message(), "Closing tag: a, found at position: 0 was never opened");
    assert_eq!(
        ParseError::UnterminatedAngularBracket(12345).message(),
        "Unterminated angular bracket, found at location 12345"
    );
    assert_eq!(ParseError::NoTokensToParse.message(), "Lexer could not produce any tokens");
    assert_eq!(
        ParseError::InvalidFirstToken.message(),
        "First token of xml document should be of type XMLTag"
    );
}

#[test]
fn tag_error_messages() {
    assert_eq!(
        TagParseError::UnterminatedStringLiteral(0).message(),
        "Unterminated string literal, found at 0"
    );
    assert_eq!(
        TagParseError::PeekOutOfBounds { offset: -1, cur_idx: 1, len: 70 }.message(),
        "Peek out of bounds, offset -1 out of bounds for current index 1 and total length 70"
    );
    assert_eq!(
        TagParseError::PeekOutOfBounds { offset: i64::MIN, cur_idx: 0, len: 0 }.message(),
        "Peek out of bounds, offset -9223372036854775808 out of bounds for current index 0 and total length 0"
    );
    let e = RXML::new(String::from("<tag attr=>")).parse().unwrap_err();
    assert_eq!(e.message(), "Expected StringLiteral on the right of Equals token but found nothing");
    assert_eq!(
        TagParseError::UnexpectedTagToken.message(),
        "Expected String token on the left and StringLiteral token on the right of Equals token"
    );
    assert_eq!(
        TagParseError::InvalidFirstToken.message(),
        "First token of any tag should either be of type String or ForwardSlash"
    );
}

#[test]
fn pretty_format_shows_values_as_debug_does() {
    let root = RXML::new(String::from("<a k='x\ty'>\u{7f}</a>")).parse().unwrap();
    assert_eq!(root.pretty_format(), "<a {\"k\": \"x\\ty\"}> '\u{7f}'\n");
}
