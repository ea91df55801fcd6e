//! Errors of the tag-level and document-level parsers.
use vstd::prelude::*;
use crate::chars::{push_all_str, push_char};

verus! {

/// Why the text of one tag could not be turned into a tag descriptor.
#[derive(Debug)]
pub enum TagParseError {
    /// A quoted literal opened at this offset of the tag text is never closed.
    UnterminatedStringLiteral(usize),
    /// A neighbour lookup fell outside the token buffer.
    PeekOutOfBounds { offset: i64, cur_idx: usize, len: usize },
    /// An `=` token lacks the neighbour named by `direction`.
    NoTokenAtLocation { expected_kind: String, direction: String, current: String },
    /// The neighbours of an `=` token are not a name and a quoted literal.
    UnexpectedTagToken,
    /// The tag neither starts with a name nor with `/` followed by a name.
    InvalidFirstToken,
}

/// Why a document could not be turned into a node tree.
#[derive(Debug)]
pub enum ParseError {
    /// A `<` at this offset has no matching `>`.
    UnterminatedAngularBracket(usize),
    /// The text of a tag is malformed.
    TagParseError(TagParseError),
    /// The document holds nothing but white space.
    NoTokensToParse,
    /// The document does not start with a tag.
    InvalidFirstToken,
    /// A closing tag does not match the innermost open tag.
    UnexpectedClosingTag { expected: String, obtained: String, position: usize },
    /// A closing tag arrives while no tag is open.
    ClosingTagNeverOpened { obtained: String, position: usize },
}

/// The decimal digits of `n`.
pub open spec fn decimal(n: nat) -> Seq<char>
    decreases n,
{
    if n < 10 {
        seq![digit(n)]
    } else {
        decimal(n / 10).push(digit(n % 10))
    }
}

pub open spec fn digit(d: nat) -> char {
    if d < 10 {
        (('0' as u32) + d) as char
    } else {
        '?'
    }
}

/// A signed number in decimal, with `-` before a negative one.
pub open spec fn signed_decimal(n: int) -> Seq<char> {
    if n < 0 {
        seq!['-'] + decimal((-n) as nat)
    } else {
        decimal(n as nat)
    }
}

/// Appends the decimal digits of `n` to `s`.
pub fn push_decimal(s: &mut String, n: u64)
    ensures
        final(s)@ == old(s)@ + decimal(n as nat),
    decreases n,
{
    if n >= 10 {
        push_decimal(s, n / 10);
    }
    let d = n % 10;
    let c = if d == 0 {
        '0'
    } else if d == 1 {
        '1'
    } else if d == 2 {
        '2'
    } else if d == 3 {
        '3'
    } else if d == 4 {
        '4'
    } else if d == 5 {
        '5'
    } else if d == 6 {
        '6'
    } else if d == 7 {
        '7'
    } else if d == 8 {
        '8'
    } else {
        '9'
    };
    push_char(s, c);
    proof {
        assert(c == digit(d as nat));
        if n >= 10 {
            assert(decimal(n as nat) == decimal((n / 10) as nat).push(digit((n % 10) as nat)));
        }
    }
}

/// Appends `n` in decimal to `s`, with `-` before a negative number.
pub fn push_signed_decimal(s: &mut String, n: i64)
    ensures
        final(s)@ == old(s)@ + signed_decimal(n as int),
{
    if n < 0 {
        push_char(s, '-');
        let magnitude: u64 = if n == i64::MIN {
            9223372036854775808u64
        } else {
            (-n) as u64
        };
        push_decimal(s, magnitude);
        assert(s@ == old(s)@ + (seq!['-'] + decimal((-n) as nat)));
    } else {
        push_decimal(s, n as u64);
    }
}

/// The message that describes a tag-level error.
pub open spec fn tag_error_message(e: TagParseError) -> Seq<char> {
    match e {
        TagParseError::UnterminatedStringLiteral(loc) => "Unterminated string literal, found at "@
            + decimal(loc as nat),
        TagParseError::PeekOutOfBounds { offset, cur_idx, len } => "Peek out of bounds, offset "@
            + signed_decimal(offset as int) + " out of bounds for current index "@ + decimal(
            cur_idx as nat,
        ) + " and total length "@ + decimal(len as nat),
        TagParseError::NoTokenAtLocation { expected_kind, direction, current } => "Expected "@
            + expected_kind@ + " on the "@ + direction@ + " of "@ + current@
            + " token but found nothing"@,
        TagParseError::UnexpectedTagToken =>
            "Expected String token on the left and StringLiteral token on the right of Equals token"@,
        TagParseError::InvalidFirstToken =>
            "First token of any tag should either be of type String or ForwardSlash"@,
    }
}

/// The message that describes a document-level error.
pub open spec fn parse_error_message(e: ParseError) -> Seq<char> {
    match e {
        ParseError::UnterminatedAngularBracket(loc) =>
            "Unterminated angular bracket, found at location "@ + decimal(loc as nat),
        ParseError::TagParseError(inner) => tag_error_message(inner),
        ParseError::NoTokensToParse => "Lexer could not produce any tokens"@,
        ParseError::InvalidFirstToken => "First token of xml document should be of type XMLTag"@,
        ParseError::UnexpectedClosingTag { expected, obtained, position } =>
            "Unexpected closing tag at location "@ + decimal(position as nat) + ", expected: "@
            + expected@ + ", obtained: "@ + obtained@,
        ParseError::ClosingTagNeverOpened { obtained, position } => "Closing tag: "@ + obtained@
            + ", found at position: "@ + decimal(position as nat) + " was never opened"@,
    }
}

impl TagParseError {
    /// A human-readable description of the error.
    pub fn message(&self) -> (r: String)
        ensures
            r@ == tag_error_message(*self),
    {
        let mut s = String::new();
        match self {
            TagParseError::UnterminatedStringLiteral(loc) => {
                push_all_str(&mut s, "Unterminated string literal, found at ");
                push_decimal(&mut s, *loc as u64);
            },
            TagParseError::PeekOutOfBounds { offset, cur_idx, len } => {
                push_all_str(&mut s, "Peek out of bounds, offset ");
                push_signed_decimal(&mut s, *offset);
                push_all_str(&mut s, " out of bounds for current index ");
                push_decimal(&mut s, *cur_idx as u64);
                push_all_str(&mut s, " and total length ");
                push_decimal(&mut s, *len as u64);
            },
            TagParseError::NoTokenAtLocation { expected_kind, direction, current } => {
                push_all_str(&mut s, "Expected ");
                push_all_str(&mut s, expected_kind.as_str());
                push_all_str(&mut s, " on the ");
                push_all_str(&mut s, direction.as_str());
                push_all_str(&mut s, " of ");
                push_all_str(&mut s, current.as_str());
                push_all_str(&mut s, " token but found nothing");
            },
            TagParseError::UnexpectedTagToken => {
                push_all_str(
                    &mut s,
                    "Expected String token on the left and StringLiteral token on the right of Equals token",
                );
            },
            TagParseError::InvalidFirstToken => {
                push_all_str(
                    &mut s,
                    "First token of any tag should either be of type String or ForwardSlash",
                );
            },
        }
        s
    }
}

impl ParseError {
    /// A human-readable description of the error.
    pub fn message(&self) -> (r: String)
        ensures
            r@ == parse_error_message(*self),
    {
        let mut s = String::new();
        match self {
            ParseError::UnterminatedAngularBracket(loc) => {
                push_all_str(&mut s, "Unterminated angular bracket, found at location ");
                push_decimal(&mut s, *loc as u64);
            },
            ParseError::TagParseError(inner) => {
                return inner.message();
            },
            ParseError::NoTokensToParse => {
                push_all_str(&mut s, "Lexer could not produce any tokens");
            },
            ParseError::InvalidFirstToken => {
                push_all_str(&mut s, "First token of xml document should be of type XMLTag");
            },
            ParseError::UnexpectedClosingTag { expected, obtained, position } => {
                push_all_str(&mut s, "Unexpected closing tag at location ");
                push_decimal(&mut s, *position as u64);
                push_all_str(&mut s, ", expected: ");
                push_all_str(&mut s, expected.as_str());
                push_all_str(&mut s, ", obtained: ");
                push_all_str(&mut s, obtained.as_str());
            },
            ParseError::ClosingTagNeverOpened { obtained, position } => {
                push_all_str(&mut s, "Closing tag: ");
                push_all_str(&mut s, obtained.as_str());
                push_all_str(&mut s, ", found at position: ");
                push_decimal(&mut s, *position as u64);
                push_all_str(&mut s, " was never opened");
            },
        }
        s
    }
}

} // verus!
