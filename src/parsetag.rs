//! The lexer and parser for the text of a single tag.
use vstd::prelude::*;
use crate::chars::{
    alphabetic, alphanumeric, byte_at, byte_len, byte_offsets, chars_of, chars_with_len, is_alphabetic,
    is_alphanumeric, is_whitespace, is_ws, lemma_byte_len_subrange, string_of,
};
use crate::attributes::Attributes;
use crate::error::TagParseError;

verus! {

/// The kinds of token found inside a tag.
#[derive(Debug, Clone, Copy, PartialEq, Eq, Structural)]
pub enum TokenKind {
    String,
    StringLiteral,
    Equals,
    Unknown,
    Whitespace,
    EndOfLine,
    ForwardSlash,
}

/// One token of a tag: its kind, its text and where it starts.
#[derive(Debug, Clone)]
pub struct TagToken {
    pub kind: TokenKind,
    pub text: String,
    pub position: usize,
}

impl TagToken {
    pub fn new(text: &str, kind: TokenKind, position: usize) -> (r: Self)
        ensures
            r.text@ == text@,
            r.kind == kind,
            r.position == position,
    {
        TagToken { kind, text: text.to_owned(), position }
    }
}

impl PartialEq for TagToken {
    fn eq(&self, other: &TagToken) -> (r: bool) {
        self.kind == other.kind && self.text == other.text && self.position == other.position
    }
}

impl vstd::std_specs::cmp::PartialEqSpecImpl for TagToken {
    open spec fn obeys_eq_spec() -> bool {
        true
    }

    open spec fn eq_spec(&self, other: &TagToken) -> bool {
        self.kind == other.kind && self.text@ == other.text@ && self.position == other.position
    }
}

pub open spec fn is_quote(c: char) -> bool {
    c == '\'' || c == '"'
}

/// Characters that may start a name.
pub open spec fn is_name_start(c: char) -> bool {
    alphabetic(c) || c == '_'
}

/// Characters that may continue a name.
pub open spec fn is_name_char(c: char) -> bool {
    alphanumeric(c) || c == '_'
}

/// The end of the run of name characters that starts at `i`.
pub open spec fn name_end(s: Seq<char>, i: int) -> int
    decreases s.len() - i,
{
    if 0 <= i < s.len() && is_name_char(s[i]) {
        name_end(s, i + 1)
    } else {
        i
    }
}

/// The first index at or after `i` that holds `q`, if any.
pub open spec fn find_char(s: Seq<char>, i: int, q: char) -> Option<int>
    decreases s.len() - i,
{
    if !(0 <= i < s.len()) {
        None
    } else if s[i] == q {
        Some(i)
    } else {
        find_char(s, i + 1, q)
    }
}

/// The end of the run of non-white-space characters that starts at `i`.
pub open spec fn word_end(s: Seq<char>, i: int) -> int
    decreases s.len() - i,
{
    if 0 <= i < s.len() && !is_ws(s[i]) {
        word_end(s, i + 1)
    } else {
        i
    }
}

/// The token that the tag lexer finds at `i` in `s`, as its kind and end,
/// or `None` where a quoted literal starting at `i` is never closed.
pub open spec fn tag_lex_step(s: Seq<char>, i: int) -> Option<(TokenKind, int)> {
    if i >= s.len() {
        Some((TokenKind::EndOfLine, i))
    } else if is_ws(s[i]) {
        Some((TokenKind::Whitespace, i + 1))
    } else if is_quote(s[i]) {
        match find_char(s, i + 1, s[i]) {
            Some(j) => Some((TokenKind::StringLiteral, j + 1)),
            None => None,
        }
    } else if is_name_start(s[i]) {
        Some((TokenKind::String, name_end(s, i + 1)))
    } else if s[i] == '=' {
        Some((TokenKind::Equals, i + 1))
    } else if s[i] == '/' {
        Some((TokenKind::ForwardSlash, i + 1))
    } else {
        Some((TokenKind::Unknown, word_end(s, i + 1)))
    }
}

/// Where the tag lexer's cursor stands after lexing at `i`: past the token, or at
/// the end of the text after an unclosed literal.
pub open spec fn tag_next(s: Seq<char>, i: int) -> int {
    match tag_lex_step(s, i) {
        Some((_, e)) => e,
        None => s.len() as int,
    }
}

/// `r` is what the tag lexer returns for the token at `i` of `s`.
pub open spec fn tag_result(s: Seq<char>, i: int, r: Result<TagToken, TagParseError>) -> bool {
    match tag_lex_step(s, i) {
        Some((k, e)) => r matches Ok(t) && t.kind == k && t.position == byte_at(s, i) && t.text@
            == s.subrange(i, e),
        None => r == Err::<TagToken, TagParseError>(
            TagParseError::UnterminatedStringLiteral(byte_at(s, i) as usize),
        ),
    }
}

pub proof fn lemma_name_end(s: Seq<char>, i: int)
    requires
        0 <= i <= s.len(),
    ensures
        i <= name_end(s, i) <= s.len(),
        forall|k: int| i <= k < name_end(s, i) ==> is_name_char(#[trigger] s[k]),
        name_end(s, i) < s.len() ==> !is_name_char(s[name_end(s, i)]),
    decreases s.len() - i,
{
    if i < s.len() && is_name_char(s[i]) {
        lemma_name_end(s, i + 1);
    }
}

pub proof fn lemma_word_end(s: Seq<char>, i: int)
    requires
        0 <= i <= s.len(),
    ensures
        i <= word_end(s, i) <= s.len(),
        forall|k: int| i <= k < word_end(s, i) ==> !is_ws(#[trigger] s[k]),
        word_end(s, i) < s.len() ==> is_ws(s[word_end(s, i)]),
    decreases s.len() - i,
{
    if i < s.len() && !is_ws(s[i]) {
        lemma_word_end(s, i + 1);
    }
}

pub proof fn lemma_find_char(s: Seq<char>, i: int, q: char)
    requires
        0 <= i <= s.len(),
    ensures
        match find_char(s, i, q) {
            Some(j) => i <= j < s.len() && s[j] == q && forall|k: int|
                i <= k < j ==> #[trigger] s[k] != q,
            None => forall|k: int| i <= k < s.len() ==> #[trigger] s[k] != q,
        },
    decreases s.len() - i,
{
    if i < s.len() && s[i] != q {
        lemma_find_char(s, i + 1, q);
    }
}

/// Every token but the end of line advances the cursor, and none runs past the end.
pub proof fn lemma_tag_lex_step_advances(s: Seq<char>, i: int)
    requires
        0 <= i <= s.len(),
    ensures
        match tag_lex_step(s, i) {
            Some((k, e)) => if i == s.len() {
                k == TokenKind::EndOfLine && e == i
            } else {
                k != TokenKind::EndOfLine && i < e <= s.len()
            },
            None => i < s.len(),
        },
{
    if i < s.len() {
        lemma_name_end(s, i + 1);
        lemma_word_end(s, i + 1);
        lemma_find_char(s, i + 1, s[i]);
    }
}

/// A pull lexer over the text of one tag.
#[derive(Debug)]
pub struct TagLexer {
    content: Vec<char>,
    offsets: Vec<usize>,
    position: usize,
}

impl TagLexer {
    /// The text being lexed.
    pub closed spec fn text(&self) -> Seq<char> {
        self.content@
    }

    /// The cursor: where the next token starts.
    pub closed spec fn cursor(&self) -> int {
        self.position as int
    }

    pub closed spec fn wf(&self) -> bool {
        &&& self.position <= self.content@.len()
        &&& self.offsets@.len() == self.content@.len() + 1
        &&& forall|i: int|
            0 <= i <= self.content@.len() ==> #[trigger] self.offsets@[i] == byte_at(
                self.content@,
                i,
            )
    }

    pub fn new(content: &str) -> (r: Self)
        ensures
            r.wf(),
            r.text() == content@,
            r.cursor() == 0,
    {
        Self::from_chars(chars_with_len(content))
    }

    pub(crate) fn from_chars(content: Vec<char>) -> (r: Self)
        requires
            byte_len(content@) <= usize::MAX,
        ensures
            r.wf(),
            r.text() == content@,
            r.cursor() == 0,
    {
        let offsets = byte_offsets(&content);
        TagLexer { content, offsets, position: 0 }
    }

    fn cur(&self) -> (r: usize)
        ensures
            r == self.cursor(),
    {
        self.position
    }

    fn end(&self) -> (r: bool)
        ensures
            r == (self.cursor() >= self.text().len()),
    {
        self.position >= self.content.len()
    }

    /// The character under the cursor, or `'\0'` at the end.
    fn current(&self) -> (r: char)
        requires
            self.wf(),
        ensures
            self.cursor() < self.text().len() ==> r == self.text()[self.cursor()],
            self.cursor() >= self.text().len() ==> r == '\0',
    {
        if self.end() {
            return '\0';
        }
        self.content[self.position]
    }

    fn next(&mut self)
        requires
            old(self).wf(),
            old(self).cursor() < old(self).text().len(),
        ensures
            final(self).wf(),
            final(self).text() == old(self).text(),
            final(self).cursor() == old(self).cursor() + 1,
    {
        if self.position < self.content.len() {
            self.position = self.position + 1;
        }
    }

    /// Lexes the token under the cursor and moves past it.
    pub fn next_token(&mut self) -> (r: Result<TagToken, TagParseError>)
        requires
            old(self).wf(),
        ensures
            final(self).wf(),
            final(self).text() == old(self).text(),
            tag_result(old(self).text(), old(self).cursor(), r),
            final(self).cursor() == tag_next(old(self).text(), old(self).cursor()),
    {
        let ghost s = self.text();
        let start = self.cur();
        let at = self.offsets[start];
        proof {
            lemma_tag_lex_step_advances(s, start as int);
        }
        if self.end() {
            assert(s.subrange(start as int, start as int) =~= Seq::<char>::empty());
            return Ok(TagToken { kind: TokenKind::EndOfLine, text: String::new(), position: at });
        }
        let c = self.current();
        if is_whitespace(c) {
            self.next();
            Ok(TagToken { kind: TokenKind::Whitespace, text: string_of(&self.content, start, start + 1), position: at })
        } else if c == '\'' || c == '"' {
            self.next();
            proof {
                lemma_find_char(s, start + 1, c);
            }
            while self.current() != c
                invariant
                    self.wf(),
                    self.text() == s,
                    s == old(self).text(),
                    start == old(self).cursor(),
                    at == byte_at(s, start as int),
                    start < self.cursor() <= s.len(),
                    s[start as int] == c,
                    !is_ws(c),
                    is_quote(c),
                    find_char(s, start + 1, c) == find_char(s, self.cursor(), c),
                decreases s.len() - self.cursor(),
            {
                if self.end() {
                    return Err(TagParseError::UnterminatedStringLiteral(at));
                }
                self.next();
            }
            self.next();
            let end = self.cur();
            Ok(TagToken { kind: TokenKind::StringLiteral, text: string_of(&self.content, start, end), position: at })
        } else if is_alphabetic(c) || c == '_' {
            self.next();
            while !self.end() && (is_alphanumeric(self.current()) || self.current() == '_')
                invariant
                    self.wf(),
                    self.text() == s,
                    start < self.cursor() <= s.len(),
                    name_end(s, start + 1) == name_end(s, self.cursor()),
                decreases s.len() - self.cursor(),
            {
                self.next();
            }
            let end = self.cur();
            Ok(TagToken { kind: TokenKind::String, text: string_of(&self.content, start, end), position: at })
        } else if c == '=' {
            self.next();
            Ok(TagToken { kind: TokenKind::Equals, text: string_of(&self.content, start, start + 1), position: at })
        } else if c == '/' {
            self.next();
            Ok(TagToken { kind: TokenKind::ForwardSlash, text: string_of(&self.content, start, start + 1), position: at })
        } else {
            self.next();
            while !self.end() && !is_whitespace(self.current())
                invariant
                    self.wf(),
                    self.text() == s,
                    start < self.cursor() <= s.len(),
                    word_end(s, start + 1) == word_end(s, self.cursor()),
                decreases s.len() - self.cursor(),
            {
                self.next();
            }
            let end = self.cur();
            Ok(TagToken { kind: TokenKind::Unknown, text: string_of(&self.content, start, end), position: at })
        }
    }
}

/// A token as the specification sees it: kind, start and end in the tag text.
pub type TokSpec = (TokenKind, int, int);

/// The tokens of `s` from `i` on, white space left out, or the offset of a
/// quoted literal that is never closed.
pub open spec fn tag_tokens_from(s: Seq<char>, i: int) -> Result<Seq<TokSpec>, int>
    decreases s.len() - i,
{
    if !(0 <= i < s.len()) {
        Ok(Seq::empty())
    } else {
        match tag_lex_step(s, i) {
            None => Err(i),
            Some((k, e)) => if e <= i || e > s.len() {
                Ok(Seq::empty())
            } else {
                match tag_tokens_from(s, e) {
                    Err(p) => Err(p),
                    Ok(rest) => if k == TokenKind::Whitespace {
                        Ok(rest)
                    } else {
                        Ok(seq![(k, i, e)] + rest)
                    },
                }
            },
        }
    }
}

/// The tokens of the whole tag text.
pub open spec fn tag_tokens(s: Seq<char>) -> Result<Seq<TokSpec>, int> {
    tag_tokens_from(s, 0)
}

pub open spec fn tok_text(s: Seq<char>, t: TokSpec) -> Seq<char> {
    s.subrange(t.1, t.2)
}

/// A token of the lexer that stands for the specification's token `m`.
pub open spec fn token_is(s: Seq<char>, t: TagToken, m: TokSpec) -> bool {
    t.kind == m.0 && t.position == byte_at(s, m.1) && t.text@ == tok_text(s, m)
}

/// `v` is what the tokenizer returns for `s`: every token but white space.
pub open spec fn lexed(s: Seq<char>, v: Seq<TagToken>) -> bool {
    &&& tag_tokens(s) is Ok
    &&& v.len() == tag_tokens(s)->Ok_0.len()
    &&& forall|j: int|
        0 <= j < v.len() ==> token_is(s, #[trigger] v[j], tag_tokens(s)->Ok_0[j])
}

/// A literal's text without its quotes.
pub open spec fn unquote(t: Seq<char>) -> Seq<char> {
    t.subrange(1, t.len() - 1)
}

/// The ways in which a tag's text can be malformed.
pub enum TagFault {
    UnterminatedLiteral(int),
    InvalidFirst,
    MissingLeft,
    MissingRight,
    Unexpected,
}

/// The error value that reports `f`.
pub open spec fn reports(e: TagParseError, f: TagFault) -> bool {
    match f {
        TagFault::UnterminatedLiteral(p) => e == TagParseError::UnterminatedStringLiteral(
            p as usize,
        ),
        TagFault::InvalidFirst => e == TagParseError::InvalidFirstToken,
        TagFault::Unexpected => e == TagParseError::UnexpectedTagToken,
        TagFault::MissingLeft => e matches TagParseError::NoTokenAtLocation {
            expected_kind,
            direction,
            current,
        } && expected_kind@ == "String"@ && direction@ == "left"@ && current@ == "Equals"@,
        TagFault::MissingRight => e matches TagParseError::NoTokenAtLocation {
            expected_kind,
            direction,
            current,
        } && expected_kind@ == "StringLiteral"@ && direction@ == "right"@ && current@ == "Equals"@,
    }
}

/// Scans the tokens from `i` on for `=` and records each `name = 'value'` pair in `acc`.
pub open spec fn attrs_from(s: Seq<char>, ts: Seq<TokSpec>, i: int, acc: Map<Seq<char>, Seq<char>>) -> Result<Map<Seq<char>, Seq<char>>, TagFault>
    decreases ts.len() - i,
{
    if !(0 <= i < ts.len()) {
        Ok(acc)
    } else if ts[i].0 == TokenKind::Equals {
        if i - 1 < 1 {
            Err(TagFault::MissingLeft)
        } else if i + 1 >= ts.len() {
            Err(TagFault::MissingRight)
        } else if ts[i - 1].0 == TokenKind::String && ts[i + 1].0 == TokenKind::StringLiteral {
            attrs_from(s, ts, i + 1, acc.insert(tok_text(s, ts[i - 1]), unquote(tok_text(s, ts[i + 1]))))
        } else {
            Err(TagFault::Unexpected)
        }
    } else {
        attrs_from(s, ts, i + 1, acc)
    }
}

/// A tag descriptor as the specification sees it.
pub struct TagSpec {
    pub kind: TagKind,
    pub name: Seq<char>,
    pub attribs: Map<Seq<char>, Seq<char>>,
}

/// The descriptor that a token list stands for.
pub open spec fn tag_of_tokens(s: Seq<char>, ts: Seq<TokSpec>) -> Result<TagSpec, TagFault> {
    if ts.len() > 0 && ts[0].0 == TokenKind::String {
        match attrs_from(s, ts, 0, Map::empty()) {
            Ok(m) => Ok(TagSpec { kind: TagKind::Opening, name: tok_text(s, ts[0]), attribs: m }),
            Err(f) => Err(f),
        }
    } else if ts.len() > 1 && ts[0].0 == TokenKind::ForwardSlash && ts[1].0 == TokenKind::String {
        match attrs_from(s, ts, 1, Map::empty()) {
            Ok(m) => Ok(TagSpec { kind: TagKind::Closing, name: tok_text(s, ts[1]), attribs: m }),
            Err(f) => Err(f),
        }
    } else {
        Err(TagFault::InvalidFirst)
    }
}

/// The descriptor that the text between a tag's brackets stands for.
pub open spec fn parse_tag_text(s: Seq<char>) -> Result<TagSpec, TagFault> {
    match tag_tokens(s) {
        Err(p) => Err(TagFault::UnterminatedLiteral(byte_at(s, p) as int)),
        Ok(ts) => tag_of_tokens(s, ts),
    }
}

/// The text of a tag with one leading `<` and one trailing `>` removed, where both are there.
pub open spec fn trim_brackets(s: Seq<char>) -> Seq<char> {
    if s.len() >= 2 && s[0] == '<' && s[s.len() - 1] == '>' {
        s.subrange(1, s.len() - 1)
    } else {
        s
    }
}

/// Whether a tag opens or closes an element.
#[derive(Debug, Clone, Copy, PartialEq, Eq, Structural)]
pub enum TagKind {
    Opening,
    Closing,
}

/// What the tag parser makes of one tag: its name, attributes, kind and
/// the offset in the document where it starts.
#[derive(Debug, Clone)]
pub struct XMLTag {
    pub name: String,
    pub attribs: Attributes,
    pub kind: TagKind,
    pub pos: usize,
}

impl XMLTag {
    pub fn new(name: String, attribs: Attributes, kind: TagKind, pos: usize) -> (r: Self)
        ensures
            r.name == name,
            r.attribs == attribs,
            r.kind == kind,
            r.pos == pos,
    {
        XMLTag { name, attribs, kind, pos }
    }

    /// Same name, attributes, kind and offset.
    pub open spec fn same_tag(&self, other: &XMLTag) -> bool {
        self.name@ == other.name@ && self.attribs@ == other.attribs@ && self.kind
            == other.kind && self.pos == other.pos
    }

    /// Whether this descriptor is what the specification's `t` describes, at offset `pos`.
    pub open spec fn describes(&self, t: TagSpec, pos: int) -> bool {
        &&& self.attribs.wf()
        &&& self.name@ == t.name
        &&& self.attribs@ == t.attribs
        &&& self.kind == t.kind
        &&& self.pos == pos
    }
}

impl PartialEq for XMLTag {
    fn eq(&self, other: &XMLTag) -> (r: bool) {
        self.name == other.name && self.attribs == other.attribs && self.kind == other.kind
            && self.pos == other.pos
    }
}

impl vstd::std_specs::cmp::PartialEqSpecImpl for XMLTag {
    open spec fn obeys_eq_spec() -> bool {
        true
    }

    open spec fn eq_spec(&self, other: &XMLTag) -> bool {
        self.same_tag(other)
    }
}

/// Turns the text of one tag into a tag descriptor.
#[derive(Debug)]
pub struct TagParser {
    content: Vec<char>,
    offset: usize,
}

impl TagParser {
    /// The text between the brackets.
    pub closed spec fn text(&self) -> Seq<char> {
        self.content@
    }

    /// The document offset recorded in the descriptor.
    pub closed spec fn offset(&self) -> int {
        self.offset as int
    }

    pub closed spec fn wf(&self) -> bool {
        byte_len(self.content@) <= usize::MAX
    }

    /// A parser for the text of one tag, given with or without its brackets.
    pub fn new(content: &str) -> (r: Self)
        ensures
            r.wf(),
            r.text() == trim_brackets(content@),
            r.offset() == 0,
    {
        Self::from_chars(chars_with_len(content), 0)
    }

    /// A parser for the tag text `content` that starts at byte `offset` of a document.
    pub(crate) fn from_chars(content: Vec<char>, offset: usize) -> (r: Self)
        requires
            byte_len(content@) <= usize::MAX,
        ensures
            r.wf(),
            r.text() == trim_brackets(content@),
            r.offset() == offset,
    {
        proof {
            if content@.len() >= 2 {
                lemma_byte_len_subrange(content@, 1, content@.len() - 1);
            }
        }
        let n = content.len();
        if n >= 2 && content[0] == '<' && content[n - 1] == '>' {
            let mut inner: Vec<char> = Vec::new();
            let mut i: usize = 1;
            while i < n - 1
                invariant
                    n == content@.len() >= 2,
                    1 <= i <= n - 1,
                    inner@ == content@.subrange(1, i as int),
                decreases n - 1 - i,
            {
                inner.push(content[i]);
                assert(content@.subrange(1, i + 1) == content@.subrange(1, i as int).push(content@[i as int]));
                i = i + 1;
            }
            TagParser { content: inner, offset }
        } else {
            TagParser { content, offset }
        }
    }

    /// All tokens of the tag text but white space, in order.
    fn tokenize(&self) -> (r: Result<Vec<TagToken>, TagParseError>)
        requires
            self.wf(),
        ensures
            match tag_tokens(self.text()) {
                Ok(_) => r matches Ok(v) && lexed(self.text(), v@),
                Err(p) => r == Err::<Vec<TagToken>, TagParseError>(
                    TagParseError::UnterminatedStringLiteral(byte_at(self.text(), p) as usize),
                ),
            },
    {
        let ghost s = self.text();
        let mut lexer = TagLexer::from_chars(self.content.clone());
        let mut tokens: Vec<TagToken> = Vec::new();
        let ghost mut acc: Seq<TokSpec> = Seq::empty();
        loop
            invariant
                s == self.text(),
                lexer.wf(),
                lexer.text() == s,
                0 <= lexer.cursor() <= s.len(),
                tokens@.len() == acc.len(),
                forall|j: int| 0 <= j < acc.len() ==> token_is(s, #[trigger] tokens@[j], acc[j]),
                tag_tokens(s) == match tag_tokens_from(s, lexer.cursor()) {
                    Ok(rest) => Ok(acc + rest),
                    Err(p) => Err(p),
                },
            decreases s.len() - lexer.cursor(),
        {
            let ghost i = lexer.cursor();
            proof {
                lemma_tag_lex_step_advances(s, i);
            }
            let tok = match lexer.next_token() {
                Ok(tok) => tok,
                Err(e) => {
                    return Err(e);
                },
            };
            match tok.kind {
                TokenKind::EndOfLine => {
                    assert(tag_tokens_from(s, i) == Ok::<Seq<TokSpec>, int>(Seq::empty()));
                    assert(acc + Seq::<TokSpec>::empty() == acc);
                    return Ok(tokens);
                },
                TokenKind::Whitespace => {},
                _ => {
                    let ghost e = lexer.cursor();
                    proof {
                        assert(acc + (seq![(tok.kind, i, e)] + tag_tokens_from(s, e)->Ok_0) == acc.push((tok.kind, i, e)) + tag_tokens_from(s, e)->Ok_0);
                        acc = acc.push((tok.kind, i, e));
                    }
                    tokens.push(tok);
                },
            }
        }
    }

    /// The token `offset` places away from `cur`, where that is a valid place
    /// for a neighbour (past the first token, before the end).
    fn peek(&self, tokens: &Vec<TagToken>, cur: usize, offset: i64) -> (r: Result<usize, TagParseError>)
        requires
            cur < tokens@.len(),
            -1 <= offset <= 1,
        ensures
            match r {
                Ok(j) => j == cur + offset && 1 <= j < tokens@.len(),
                Err(e) => !(1 <= cur + offset < tokens@.len()) && e matches TagParseError::PeekOutOfBounds { .. },
            },
    {
        let fits = if offset < 0 {
            cur >= 2
        } else if offset > 0 {
            cur < tokens.len() - 1
        } else {
            cur >= 1
        };
        if !fits {
            return Err(TagParseError::PeekOutOfBounds { offset, cur_idx: cur, len: self.content.len() });
        }
        if offset < 0 {
            Ok(cur - 1)
        } else if offset > 0 {
            Ok(cur + 1)
        } else {
            Ok(cur)
        }
    }

    /// Turns the tag text into a descriptor.
    pub fn parse(&self) -> (r: Result<XMLTag, TagParseError>)
        requires
            self.wf(),
        ensures
            match parse_tag_text(self.text()) {
                Ok(t) => r matches Ok(d) && d.describes(t, self.offset()),
                Err(f) => r matches Err(e) && reports(e, f),
            },
    {
        let ghost s = self.text();
        let tokens = match self.tokenize() {
            Ok(v) => v,
            Err(e) => {
                return Err(e);
            },
        };
        let ghost ts = tag_tokens(s)->Ok_0;
        proof {
            lemma_tag_tokens_from(s, 0);
        }
        if tokens.len() == 0 {
            return Err(TagParseError::InvalidFirstToken);
        }
        let name: String;
        let kind: TagKind;
        let start: usize;
        if tokens[0].kind == TokenKind::String {
            kind = TagKind::Opening;
            name = tokens[0].text.clone();
            start = 0;
        } else if tokens[0].kind == TokenKind::ForwardSlash && tokens.len() > 1
            && tokens[1].kind == TokenKind::String {
            kind = TagKind::Closing;
            name = tokens[1].text.clone();
            start = 1;
        } else {
            return Err(TagParseError::InvalidFirstToken);
        }
        let mut attribs = Attributes::new();
        let mut pos: usize = start;
        while pos < tokens.len()
            invariant
                s == self.text(),
                tag_tokens(s) == Ok::<Seq<TokSpec>, int>(ts),
                tokens@.len() == ts.len(),
                forall|j: int| 0 <= j < ts.len() ==> token_is(s, #[trigger] tokens@[j], ts[j]),
                forall|j: int|
                    0 <= j < ts.len() ==> 0 <= (#[trigger] ts[j]).1 < ts[j].2 <= s.len()
                        && tag_lex_step(s, ts[j].1) == Some((ts[j].0, ts[j].2)),
                start <= pos <= ts.len(),
                attribs.wf(),
                attrs_from(s, ts, start as int, Map::empty()) == attrs_from(s, ts, pos as int, attribs@),
                parse_tag_text(s) == match attrs_from(s, ts, start as int, Map::empty()) {
                    Ok(m) => Ok(TagSpec { kind, name: name@, attribs: m }),
                    Err(f) => Err(f),
                },
            decreases ts.len() - pos,
        {
            if tokens[pos].kind == TokenKind::Equals {
                let left = match self.peek(&tokens, pos, -1) {
                    Ok(j) => j,
                    Err(_) => {
                        return Err(TagParseError::NoTokenAtLocation {
                            expected_kind: "String".to_owned(),
                            direction: "left".to_owned(),
                            current: "Equals".to_owned(),
                        });
                    },
                };
                let right = match self.peek(&tokens, pos, 1) {
                    Ok(j) => j,
                    Err(_) => {
                        return Err(TagParseError::NoTokenAtLocation {
                            expected_kind: "StringLiteral".to_owned(),
                            direction: "right".to_owned(),
                            current: "Equals".to_owned(),
                        });
                    },
                };
                if tokens[left].kind == TokenKind::String && tokens[right].kind == TokenKind::StringLiteral {
                    let literal = chars_of(tokens[right].text.as_str());
                    proof {
                        let m = ts[right as int];
                        lemma_find_char(s, m.1 + 1, s[m.1]);
                    }
                    let value = string_of(&literal, 1, literal.len() - 1);
                    attribs.insert(tokens[left].text.clone(), value);
                } else {
                    return Err(TagParseError::UnexpectedTagToken);
                }
            }
            pos = pos + 1;
        }
        Ok(XMLTag::new(name, attribs, kind, self.offset))
    }
}

/// Each token of the list is what the lexer finds at its start.
pub proof fn lemma_tag_tokens_from(s: Seq<char>, i: int)
    requires
        0 <= i <= s.len(),
    ensures
        tag_tokens_from(s, i) matches Ok(ts) ==> forall|j: int|
            0 <= j < ts.len() ==> i <= (#[trigger] ts[j]).1 < ts[j].2 <= s.len() && tag_lex_step(
                s,
                ts[j].1,
            ) == Some((ts[j].0, ts[j].2)),
    decreases s.len() - i,
{
    if i < s.len() {
        match tag_lex_step(s, i) {
            Some((k, e)) => {
                if i < e <= s.len() {
                    lemma_tag_tokens_from(s, e);
                }
            },
            None => {},
        }
    }
}

} // verus!
