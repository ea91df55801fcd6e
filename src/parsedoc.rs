//! The document lexer and the parser that builds the node tree.
use vstd::prelude::*;
use crate::api::{fresh_node, with_child, with_text, NodeSpec, XMLNode};
use crate::api;
use crate::chars::{
    byte_at, byte_len, byte_offsets, chars_with_len, is_whitespace, is_ws, lemma_byte_len_subrange,
    string_of,
};
use crate::error::{ParseError, TagParseError};
use crate::parsetag::{
    find_char, lemma_find_char, parse_tag_text, reports, trim_brackets, TagFault, TagKind,
    TagParser, TagSpec, XMLTag,
};

verus! {

/// The kinds of token found in a document.
#[derive(Debug)]
pub enum TokenKind {
    Tag(XMLTag),
    String,
    EndOfFile,
    Whitespace,
}

/// One token of a document: its text, kind and where it starts.
#[derive(Debug)]
pub struct DocToken {
    pub text: String,
    pub kind: TokenKind,
    pub position: usize,
}

impl DocToken {
    pub fn new(text: &str, kind: TokenKind, position: usize) -> (r: Self)
        ensures
            r.text@ == text@,
            r.kind == kind,
            r.position == position,
    {
        DocToken { text: text.to_owned(), kind, position }
    }
}

impl PartialEq for DocToken {
    fn eq(&self, other: &DocToken) -> (r: bool) {
        let same_kind = match (&self.kind, &other.kind) {
            (TokenKind::Tag(a), TokenKind::Tag(b)) => *a == *b,
            (TokenKind::String, TokenKind::String) => true,
            (TokenKind::EndOfFile, TokenKind::EndOfFile) => true,
            (TokenKind::Whitespace, TokenKind::Whitespace) => true,
            _ => false,
        };
        same_kind && self.text == other.text && self.position == other.position
    }
}

pub open spec fn same_kind(a: TokenKind, b: TokenKind) -> bool {
    match (a, b) {
        (TokenKind::Tag(x), TokenKind::Tag(y)) => x.same_tag(&y),
        (TokenKind::String, TokenKind::String) => true,
        (TokenKind::EndOfFile, TokenKind::EndOfFile) => true,
        (TokenKind::Whitespace, TokenKind::Whitespace) => true,
        _ => false,
    }
}

impl vstd::std_specs::cmp::PartialEqSpecImpl for DocToken {
    open spec fn obeys_eq_spec() -> bool {
        true
    }

    open spec fn eq_spec(&self, other: &DocToken) -> bool {
        same_kind(self.kind, other.kind) && self.text@ == other.text@ && self.position
            == other.position
    }
}

/// The end of the text run that starts at `i`: it stops at white space or `<`.
pub open spec fn text_end(s: Seq<char>, i: int) -> int
    decreases s.len() - i,
{
    if 0 <= i < s.len() && !is_ws(s[i]) && s[i] != '<' {
        text_end(s, i + 1)
    } else {
        i
    }
}

pub proof fn lemma_text_end(s: Seq<char>, i: int)
    requires
        0 <= i <= s.len(),
    ensures
        i <= text_end(s, i) <= s.len(),
        forall|k: int| i <= k < text_end(s, i) ==> !is_ws(#[trigger] s[k]) && s[k] != '<',
        text_end(s, i) < s.len() ==> is_ws(s[text_end(s, i)]) || s[text_end(s, i)] == '<',
    decreases s.len() - i,
{
    if i < s.len() && !is_ws(s[i]) && s[i] != '<' {
        lemma_text_end(s, i + 1);
    }
}

/// The ways in which a document can be malformed.
pub enum DocFault {
    UnterminatedBracket(int),
    Tag(TagFault),
    NoTokens,
    InvalidFirst,
    UnexpectedClosing { expected: Seq<char>, obtained: Seq<char>, position: int },
    NeverOpened { obtained: Seq<char>, position: int },
}

/// The error value that reports `f`.
pub open spec fn doc_reports(e: ParseError, f: DocFault) -> bool {
    match f {
        DocFault::UnterminatedBracket(p) => e == ParseError::UnterminatedAngularBracket(p as usize),
        DocFault::Tag(g) => e matches ParseError::TagParseError(te) && reports(te, g),
        DocFault::NoTokens => e == ParseError::NoTokensToParse,
        DocFault::InvalidFirst => e == ParseError::InvalidFirstToken,
        DocFault::UnexpectedClosing { expected, obtained, position } => e matches ParseError::UnexpectedClosingTag {
            expected: x,
            obtained: o,
            position: p,
        } && x@ == expected && o@ == obtained && p == position,
        DocFault::NeverOpened { obtained, position } => e matches ParseError::ClosingTagNeverOpened {
            obtained: o,
            position: p,
        } && o@ == obtained && p == position,
    }
}

/// What the document lexer finds at one position.
pub enum DocStep {
    End,
    Space,
    Text(int),
    Tag(int, TagSpec),
    Fault(DocFault),
}

/// The token that the document lexer finds at `i` in `s`; `Text` and `Tag` carry its end.
pub open spec fn doc_lex_step(s: Seq<char>, i: int) -> DocStep {
    if i >= s.len() {
        DocStep::End
    } else if is_ws(s[i]) {
        DocStep::Space
    } else if s[i] == '<' {
        match find_char(s, i + 1, '>') {
            None => DocStep::Fault(DocFault::UnterminatedBracket(byte_at(s, i) as int)),
            Some(j) => match parse_tag_text(s.subrange(i + 1, j)) {
                Ok(t) => DocStep::Tag(j + 1, t),
                Err(f) => DocStep::Fault(DocFault::Tag(f)),
            },
        }
    } else {
        DocStep::Text(text_end(s, i))
    }
}

/// Where the document lexer's cursor stands after lexing at `i`: past the token;
/// at the end of input after an unclosed `<`; past the `>` after a malformed tag.
pub open spec fn doc_next(s: Seq<char>, i: int) -> int {
    match doc_lex_step(s, i) {
        DocStep::End => i,
        DocStep::Space => i + 1,
        DocStep::Text(e) => e,
        DocStep::Tag(e, _) => e,
        DocStep::Fault(DocFault::UnterminatedBracket(_)) => s.len() as int,
        DocStep::Fault(_) => match find_char(s, i + 1, '>') {
            Some(j) => j + 1,
            None => s.len() as int,
        },
    }
}

/// `r` is what the document lexer returns for the token at `i` of `s`.
pub open spec fn doc_result(s: Seq<char>, i: int, r: Result<DocToken, ParseError>) -> bool {
    match doc_lex_step(s, i) {
        DocStep::Fault(f) => r matches Err(e) && doc_reports(e, f),
        step => r matches Ok(t) && doc_token_is(s, i, t, step),
    }
}

pub proof fn lemma_doc_lex_step(s: Seq<char>, i: int)
    requires
        0 <= i <= s.len(),
    ensures
        match doc_lex_step(s, i) {
            DocStep::End => i == s.len(),
            DocStep::Space => i < s.len(),
            DocStep::Text(e) => i < e <= s.len(),
            DocStep::Tag(e, _) => i + 2 <= e <= s.len() && s[i] == '<' && s[e - 1] == '>',
            DocStep::Fault(_) => i < s.len(),
        },
{
    if i < s.len() {
        lemma_text_end(s, i);
        lemma_find_char(s, i + 1, '>');
    }
}

/// Whether `t` is the token that `step` describes at `i` of `s`.
pub open spec fn doc_token_is(s: Seq<char>, i: int, t: DocToken, step: DocStep) -> bool {
    &&& t.position == byte_at(s, i)
    &&& match step {
        DocStep::End => t.kind is EndOfFile && t.text@ == Seq::<char>::empty(),
        DocStep::Space => t.kind is Whitespace && t.text@ == s.subrange(i, i + 1),
        DocStep::Text(e) => t.kind is String && t.text@ == s.subrange(i, e),
        DocStep::Tag(e, g) => t.kind matches TokenKind::Tag(d) && d.describes(g, byte_at(s, i) as int)
            && t.text@ == s.subrange(i, e),
        DocStep::Fault(_) => false,
    }
}

/// A pull lexer over a whole document.
pub struct XMLLexer {
    content: Vec<char>,
    offsets: Vec<usize>,
    position: usize,
}

impl XMLLexer {
    /// The document being lexed.
    pub closed spec fn text(&self) -> Seq<char> {
        self.content@
    }

    /// The cursor: where the next token starts.
    pub closed spec fn cursor(&self) -> int {
        self.position as int
    }

    pub closed spec fn wf(&self) -> bool {
        &&& self.position <= self.content@.len()
        &&& byte_len(self.content@) <= usize::MAX
        &&& self.offsets@.len() == self.content@.len() + 1
        &&& forall|i: int|
            0 <= i <= self.content@.len() ==> #[trigger] self.offsets@[i] == byte_at(
                self.content@,
                i,
            )
    }

    pub fn new(content: &str) -> (r: Self)
        ensures
            r.wf(),
            r.text() == content@,
            r.cursor() == 0,
    {
        let content = chars_with_len(content);
        let offsets = byte_offsets(&content);
        XMLLexer { content, offsets, position: 0 }
    }

    /// The character under the cursor, or `'\0'` at the end.
    fn current(&self) -> (r: char)
        requires
            self.wf(),
        ensures
            self.cursor() < self.text().len() ==> r == self.text()[self.cursor()],
            self.cursor() >= self.text().len() ==> r == '\0',
    {
        if self.end() {
            return '\0';
        }
        self.content[self.position]
    }

    fn next(&mut self)
        requires
            old(self).wf(),
            old(self).cursor() < old(self).text().len(),
        ensures
            final(self).wf(),
            final(self).text() == old(self).text(),
            final(self).cursor() == old(self).cursor() + 1,
    {
        if self.position < self.content.len() {
            self.position = self.position + 1;
        }
    }

    fn cur(&self) -> (r: usize)
        ensures
            r == self.cursor(),
    {
        self.position
    }

    pub fn end(&self) -> (r: bool)
        ensures
            r == (self.cursor() >= self.text().len()),
    {
        self.position >= self.content.len()
    }

    /// Lexes the token under the cursor and moves past it.
    pub fn next_token(&mut self) -> (r: Result<DocToken, ParseError>)
        requires
            old(self).wf(),
        ensures
            final(self).wf(),
            final(self).text() == old(self).text(),
            doc_result(old(self).text(), old(self).cursor(), r),
            final(self).cursor() == doc_next(old(self).text(), old(self).cursor()),
    {
        let ghost s = self.text();
        let start = self.cur();
        let at = self.offsets[start];
        proof {
            lemma_doc_lex_step(s, start as int);
            lemma_text_end(s, start as int);
        }
        if self.end() {
            return Ok(DocToken { text: String::new(), kind: TokenKind::EndOfFile, position: at });
        }
        let c = self.current();
        if is_whitespace(c) {
            self.next();
            Ok(DocToken { text: string_of(&self.content, start, start + 1), kind: TokenKind::Whitespace, position: at })
        } else if c == '<' {
            self.next();
            proof {
                lemma_find_char(s, start + 1, '>');
            }
            while self.current() != '>'
                invariant
                    self.wf(),
                    self.text() == s,
                    s == old(self).text(),
                    start == old(self).cursor(),
                    at == byte_at(s, start as int),
                    start < self.cursor() <= s.len(),
                    s[start as int] == '<',
                    find_char(s, start + 1, '>') == find_char(s, self.cursor(), '>'),
                decreases s.len() - self.cursor(),
            {
                if self.end() {
                    return Err(ParseError::UnterminatedAngularBracket(at));
                }
                self.next();
            }
            let close = self.cur();
            self.next();
            let end = self.cur();
            let mut bracketed: Vec<char> = Vec::new();
            let mut k: usize = start;
            while k < end
                invariant
                    start <= k <= end <= s.len(),
                    s == self.content@,
                    bracketed@ == s.subrange(start as int, k as int),
                decreases end - k,
            {
                bracketed.push(self.content[k]);
                assert(s.subrange(start as int, k + 1) == s.subrange(start as int, k as int).push(s[k as int]));
                k = k + 1;
            }
            let tagtext = string_of(&self.content, start, end);
            proof {
                lemma_byte_len_subrange(s, start as int, end as int);
            }
            let parser = TagParser::from_chars(bracketed, at);
            assert(trim_brackets(s.subrange(start as int, end as int)) == s.subrange(start + 1, close as int));
            match parser.parse() {
                Ok(tag) => Ok(DocToken { text: tagtext, kind: TokenKind::Tag(tag), position: at }),
                Err(e) => Err(ParseError::TagParseError(e)),
            }
        } else {
            self.next();
            while !self.end() && !is_whitespace(self.current()) && self.current() != '<'
                invariant
                    self.wf(),
                    self.text() == s,
                    start < self.cursor() <= s.len(),
                    text_end(s, start as int) == text_end(s, self.cursor()),
                decreases s.len() - self.cursor(),
            {
                self.next();
            }
            let end = self.cur();
            Ok(DocToken { text: string_of(&self.content, start, end), kind: TokenKind::String, position: at })
        }
    }
}

/// The models of a sequence of nodes.
pub open spec fn models(v: Seq<XMLNode>) -> Seq<NodeSpec> {
    v.map_values(|n: XMLNode| n.model())
}

pub open spec fn opt_model(r: Option<XMLNode>) -> Option<NodeSpec> {
    match r {
        Some(n) => Some(n.model()),
        None => None,
    }
}

pub open spec fn all_wf(v: Seq<XMLNode>) -> bool {
    forall|i: int| 0 <= i < v.len() ==> (#[trigger] v[i]).wf()
}

/// The open nodes after `text` has been added to the innermost one; with no
/// node open the text is dropped.
pub open spec fn add_text(stack: Seq<NodeSpec>, text: Seq<char>) -> Seq<NodeSpec> {
    if stack.len() == 0 {
        stack
    } else {
        stack.update(stack.len() - 1, with_text(stack.last(), text))
    }
}

/// Closes the innermost open node. It becomes the last child of the node
/// below it; with none below, it is the root, unless a root was closed before.
pub open spec fn close_top(stack: Seq<NodeSpec>, root: Option<NodeSpec>) -> (Seq<NodeSpec>, Option<NodeSpec>) {
    let top = stack.last();
    let rest = stack.drop_last();
    if rest.len() == 0 {
        (rest, if root is None { Some(top) } else { root })
    } else {
        (rest.update(rest.len() - 1, with_child(rest.last(), top)), root)
    }
}

/// The tree at the end of input: the nodes still open are closed in turn.
pub open spec fn finish(stack: Seq<NodeSpec>, root: Option<NodeSpec>) -> NodeSpec
    decreases stack.len(),
{
    match root {
        Some(r) => r,
        None => if stack.len() == 0 {
            arbitrary()
        } else {
            let (next_stack, next_root) = close_top(stack, root);
            finish(next_stack, next_root)
        },
    }
}

/// The tree built from position `i` on, with the nodes of `stack` open and `root`
/// closed, if the root element has been closed already. Text with no node open is
/// dropped, and so is an element opened after the root was closed; a closing tag
/// with no node open is an error. Elements still open at the end of input are
/// closed there rather than rejected. Steps that would not advance cannot occur
/// (see `lemma_doc_lex_step`); they end the parse with an error.
pub open spec fn build_from(s: Seq<char>, i: int, stack: Seq<NodeSpec>, root: Option<NodeSpec>) -> Result<NodeSpec, DocFault>
    decreases s.len() - i,
{
    if !(0 <= i <= s.len()) {
        Err(DocFault::NoTokens)
    } else {
        match doc_lex_step(s, i) {
            DocStep::End => Ok(finish(stack, root)),
            DocStep::Space => build_from(s, i + 1, stack, root),
            DocStep::Text(e) => if e <= i || e > s.len() {
                Err(DocFault::NoTokens)
            } else {
                build_from(s, e, add_text(stack, s.subrange(i, e)), root)
            },
            DocStep::Tag(e, t) => if e <= i || e > s.len() {
                Err(DocFault::NoTokens)
            } else if t.kind == TagKind::Opening {
                build_from(s, e, stack.push(fresh_node(t, byte_at(s, i) as int)), root)
            } else if stack.len() == 0 {
                Err(DocFault::NeverOpened { obtained: t.name, position: byte_at(s, i) as int })
            } else if stack.last().name != t.name {
                Err(
                    DocFault::UnexpectedClosing {
                        expected: stack.last().name,
                        obtained: t.name,
                        position: stack.last().pos,
                    },
                )
            } else {
                let (next_stack, next_root) = close_top(stack, root);
                build_from(s, e, next_stack, next_root)
            },
            DocStep::Fault(f) => Err(f),
        }
    }
}

/// The tree of a document from position `i` on, where no tag has been seen yet:
/// white space is skipped, and the first token must open the root. A closing tag
/// there closes what was never opened.
pub open spec fn start_from(s: Seq<char>, i: int) -> Result<NodeSpec, DocFault>
    decreases s.len() - i,
{
    if !(0 <= i <= s.len()) {
        Err(DocFault::NoTokens)
    } else {
        match doc_lex_step(s, i) {
            DocStep::End => Err(DocFault::NoTokens),
            DocStep::Space => start_from(s, i + 1),
            DocStep::Text(_) => Err(DocFault::InvalidFirst),
            DocStep::Tag(e, t) => if e <= i || e > s.len() {
                Err(DocFault::NoTokens)
            } else if t.kind == TagKind::Opening {
                build_from(s, e, seq![fresh_node(t, byte_at(s, i) as int)], None)
            } else {
                Err(DocFault::NeverOpened { obtained: t.name, position: byte_at(s, i) as int })
            },
            DocStep::Fault(f) => Err(f),
        }
    }
}

/// The tree of a whole document, or what is wrong with it.
pub open spec fn parse_document(s: Seq<char>) -> Result<NodeSpec, DocFault> {
    start_from(s, 0)
}

/// Closes the innermost open node (see `close_top`).
fn close_node(stack: &mut Vec<XMLNode>, root: &mut Option<XMLNode>)
    requires
        old(stack)@.len() >= 1,
        all_wf(old(stack)@),
        *old(root) matches Some(r) ==> r.wf(),
    ensures
        all_wf(final(stack)@),
        final(stack)@.len() == old(stack)@.len() - 1,
        *final(root) is None ==> final(stack)@.len() >= 1,
        *final(root) matches Some(r) ==> r.wf(),
        (models(final(stack)@), opt_model(*final(root))) == close_top(models(old(stack)@), opt_model(*old(root))),
{
    let ghost before = models(stack@);
    let top = stack.pop().unwrap();
    assert(models(stack@) =~= before.drop_last());
    if stack.len() == 0 {
        if root.is_none() {
            *root = Some(top);
        }
    } else {
        let mut parent = stack.pop().unwrap();
        parent.append_child(top);
        stack.push(parent);
        assert(models(stack@) =~= before.drop_last().update(before.len() - 2, with_child(before[before.len() - 2], before.last())));
    }
}

/// Closes every node still open and returns the root.
fn finish_tree(stack: Vec<XMLNode>, root: Option<XMLNode>) -> (r: XMLNode)
    requires
        root is None ==> stack@.len() >= 1,
        all_wf(stack@),
        root matches Some(n) ==> n.wf(),
    ensures
        r.wf(),
        r.model() == finish(models(stack@), opt_model(root)),
{
    let ghost goal = finish(models(stack@), opt_model(root));
    let mut stack = stack;
    let mut root = root;
    while root.is_none()
        invariant
            root is None ==> stack@.len() >= 1,
            all_wf(stack@),
            root matches Some(n) ==> n.wf(),
            finish(models(stack@), opt_model(root)) == goal,
        decreases stack@.len(),
    {
        close_node(&mut stack, &mut root);
    }
    root.unwrap()
}

/// Builds the node tree of a document.
pub struct XMLParser {
    lexer: XMLLexer,
}

impl XMLParser {
    /// The document to be parsed.
    pub closed spec fn text(&self) -> Seq<char> {
        self.lexer.text()
    }

    pub closed spec fn wf(&self) -> bool {
        self.lexer.wf() && self.lexer.cursor() == 0
    }

    pub fn new(content: &str) -> (r: Self)
        ensures
            r.wf(),
            r.text() == content@,
    {
        XMLParser { lexer: XMLLexer::new(content) }
    }

    /// Parses the whole document into its tree of nodes (see `parse_document`).
    pub fn parse(self) -> (r: Result<XMLNode, ParseError>)
        requires
            self.wf(),
        ensures
            match parse_document(self.text()) {
                Ok(n) => r matches Ok(node) && node.wf() && node.model() == n,
                Err(f) => r matches Err(e) && doc_reports(e, f),
            },
    {
        let ghost s = self.text();
        let mut lexer = self.lexer;
        let mut tok;
        loop
            invariant
                s == self.text(),
                lexer.wf(),
                lexer.text() == s,
                parse_document(s) == start_from(s, lexer.cursor()),
            decreases s.len() - lexer.cursor(),
        {
            let ghost i = lexer.cursor();
            proof {
                lemma_doc_lex_step(s, i);
            }
            tok = match lexer.next_token() {
                Ok(t) => t,
                Err(e) => {
                    return Err(e);
                },
            };
            match tok.kind {
                TokenKind::Whitespace => {},
                TokenKind::EndOfFile => {
                    return Err(ParseError::NoTokensToParse);
                },
                TokenKind::String => {
                    return Err(ParseError::InvalidFirstToken);
                },
                TokenKind::Tag(tag) => {
                    if tag.kind == TagKind::Closing {
                        return Err(ParseError::ClosingTagNeverOpened { obtained: tag.name, position: tag.pos });
                    }
                    let mut stack: Vec<XMLNode> = Vec::new();
                    stack.push(XMLNode::new(api::XMLTag::from(tag)));
                    assert(models(stack@) =~= seq![fresh_node(doc_lex_step(s, i)->Tag_1, byte_at(s, i) as int)]);
                    return Self::build(lexer, stack, Ghost(s));
                },
            }
        }
    }

    /// Continues the parse once the root has been opened.
    fn build(start: XMLLexer, open: Vec<XMLNode>, Ghost(s): Ghost<Seq<char>>) -> (r: Result<XMLNode, ParseError>)
        requires
            start.wf(),
            start.text() == s,
            open@.len() >= 1,
            all_wf(open@),
        ensures
            match build_from(s, start.cursor(), models(open@), None) {
                Ok(n) => r matches Ok(node) && node.wf() && node.model() == n,
                Err(f) => r matches Err(e) && doc_reports(e, f),
            },
    {
        let ghost goal = build_from(s, start.cursor(), models(open@), None);
        let mut lexer = start;
        let mut stack = open;
        let mut root: Option<XMLNode> = None;
        loop
            invariant
                lexer.wf(),
                lexer.text() == s,
                root is None ==> stack@.len() >= 1,
                all_wf(stack@),
                root matches Some(n) ==> n.wf(),
                goal == build_from(s, start.cursor(), models(open@), None),
                goal == build_from(s, lexer.cursor(), models(stack@), opt_model(root)),
            decreases s.len() - lexer.cursor(),
        {
            let ghost i = lexer.cursor();
            proof {
                lemma_doc_lex_step(s, i);
            }
            let tok = match lexer.next_token() {
                Ok(t) => t,
                Err(e) => {
                    return Err(e);
                },
            };
            match tok.kind {
                TokenKind::EndOfFile => {
                    return Ok(finish_tree(stack, root));
                },
                TokenKind::Whitespace => {},
                TokenKind::String => {
                    if stack.len() > 0 {
                        let ghost before = models(stack@);
                        let mut top = stack.pop().unwrap();
                        top.push_content(tok.text.as_str());
                        stack.push(top);
                        assert(models(stack@) =~= add_text(before, s.subrange(i, lexer.cursor())));
                    }
                },
                TokenKind::Tag(tag) => {
                    if tag.kind == TagKind::Opening {
                        let ghost before = models(stack@);
                        stack.push(XMLNode::new(api::XMLTag::from(tag)));
                        assert(models(stack@) =~= before.push(fresh_node(doc_lex_step(s, i)->Tag_1, byte_at(s, i) as int)));
                    } else {
                        if stack.len() == 0 {
                            return Err(ParseError::ClosingTagNeverOpened { obtained: tag.name, position: tag.pos });
                        }
                        let last = stack.len() - 1;
                        if stack[last].tag.name != tag.name {
                            let top = stack.pop().unwrap();
                            return Err(ParseError::UnexpectedClosingTag {
                                expected: top.tag.name,
                                obtained: tag.name,
                                position: top.tag._pos,
                            });
                        }
                        close_node(&mut stack, &mut root);
                    }
                },
            }
        }
    }
}

} // verus!
