//! Properties of the lexers and of the tree builder, proved from their specifications.
use vstd::prelude::*;
use crate::api::{fresh_node, with_child, with_text, NodeSpec};
use crate::chars::{byte_at, is_ws};
use crate::error::{ParseError, TagParseError};
use crate::parsedoc::{
    add_text, build_from, close_top, doc_lex_step, doc_next, doc_reports, doc_result,
    lemma_text_end, parse_document, text_end, DocStep, DocToken, TokenKind as DocKind,
};
use crate::parsetag::{
    attrs_from, find_char, is_name_char, is_name_start, name_end, parse_tag_text, tag_lex_step,
    lexed, tag_next, tag_result, tag_tokens, tag_tokens_from, tok_text, token_is, trim_brackets, unquote, TagKind, TagSpec,
    TagToken, TokSpec, TokenKind,
};

verus! {

/// Tokenizing the same tag text twice gives the same tokens: same kinds, texts and offsets.
pub proof fn lemma_tag_lexing_repeats(s: Seq<char>, a: Seq<TagToken>, b: Seq<TagToken>)
    requires
        lexed(s, a),
        lexed(s, b),
    ensures
        a.len() == b.len(),
        forall|j: int|
            0 <= j < a.len() ==> (#[trigger] a[j]).kind == b[j].kind && a[j].text@ == b[j].text@
                && a[j].position == b[j].position,
{
    assert forall|j: int| 0 <= j < a.len() implies (#[trigger] a[j]).kind == b[j].kind
        && a[j].text@ == b[j].text@ && a[j].position == b[j].position by {
        assert(token_is(s, a[j], tag_tokens(s)->Ok_0[j]));
        assert(token_is(s, b[j], tag_tokens(s)->Ok_0[j]));
    }
}

/// Both tag tokens carry descriptors with the same name, attributes, kind and offset.
pub open spec fn same_descriptor(a: DocKind, b: DocKind) -> bool {
    match (a, b) {
        (DocKind::Tag(x), DocKind::Tag(y)) => x.name@ == y.name@ && x.attribs@ == y.attribs@
            && x.kind == y.kind && x.pos == y.pos,
        _ => false,
    }
}

/// Where a fresh tag lexer over `s` stands after `k` calls of `next_token`.
pub open spec fn tag_cursor_after(s: Seq<char>, k: nat) -> int
    decreases k,
{
    if k == 0 {
        0
    } else {
        tag_next(s, tag_cursor_after(s, (k - 1) as nat))
    }
}

/// `rs` holds what the first `rs.len()` calls of `next_token` on a fresh tag
/// lexer over `s` return, in order.
pub open spec fn tag_run(s: Seq<char>, rs: Seq<Result<TagToken, TagParseError>>) -> bool {
    forall|i: int| 0 <= i < rs.len() ==> tag_result(s, tag_cursor_after(s, i as nat), #[trigger] rs[i])
}

/// A run grows by one call: a lexer that stands where `rs` left it, and returns
/// what `next_token` promises there, extends the run and moves to the next place.
pub proof fn lemma_tag_run_extends(
    s: Seq<char>,
    rs: Seq<Result<TagToken, TagParseError>>,
    r: Result<TagToken, TagParseError>,
)
    requires
        tag_run(s, rs),
        tag_result(s, tag_cursor_after(s, rs.len()), r),
    ensures
        tag_run(s, rs.push(r)),
        tag_cursor_after(s, rs.len() + 1) == tag_next(s, tag_cursor_after(s, rs.len())),
{
    assert forall|i: int| 0 <= i < rs.len() + 1 implies tag_result(
        s,
        tag_cursor_after(s, i as nat),
        #[trigger] rs.push(r)[i],
    ) by {
        if i < rs.len() {
            assert(rs.push(r)[i] == rs[i]);
        }
    }
}

/// Lexing the same tag text with two fresh lexers gives the same results, call by
/// call: tokens of the same kind, text and offset, or the same error.
pub proof fn lemma_tag_runs_repeat(
    s: Seq<char>,
    a: Seq<Result<TagToken, TagParseError>>,
    b: Seq<Result<TagToken, TagParseError>>,
)
    requires
        tag_run(s, a),
        tag_run(s, b),
    ensures
        forall|i: int|
            0 <= i < a.len() && i < b.len() ==> match (#[trigger] a[i], b[i]) {
                (Ok(x), Ok(y)) => x.kind == y.kind && x.text@ == y.text@ && x.position == y.position,
                (Err(x), Err(y)) => x == y,
                _ => false,
            },
{
    assert forall|i: int| 0 <= i < a.len() && i < b.len() implies match (#[trigger] a[i], b[i]) {
        (Ok(x), Ok(y)) => x.kind == y.kind && x.text@ == y.text@ && x.position == y.position,
        (Err(x), Err(y)) => x == y,
        _ => false,
    } by {
        assert(tag_result(s, tag_cursor_after(s, i as nat), a[i]));
        assert(tag_result(s, tag_cursor_after(s, i as nat), b[i]));
    }
}

/// Where a fresh document lexer over `s` stands after `k` calls of `next_token`.
pub open spec fn doc_cursor_after(s: Seq<char>, k: nat) -> int
    decreases k,
{
    if k == 0 {
        0
    } else {
        doc_next(s, doc_cursor_after(s, (k - 1) as nat))
    }
}

/// `rs` holds what the first `rs.len()` calls of `next_token` on a fresh
/// document lexer over `s` return, in order.
pub open spec fn doc_run(s: Seq<char>, rs: Seq<Result<DocToken, ParseError>>) -> bool {
    forall|i: int| 0 <= i < rs.len() ==> doc_result(s, doc_cursor_after(s, i as nat), #[trigger] rs[i])
}

/// A run grows by one call, as for the tag lexer.
pub proof fn lemma_doc_run_extends(
    s: Seq<char>,
    rs: Seq<Result<DocToken, ParseError>>,
    r: Result<DocToken, ParseError>,
)
    requires
        doc_run(s, rs),
        doc_result(s, doc_cursor_after(s, rs.len()), r),
    ensures
        doc_run(s, rs.push(r)),
        doc_cursor_after(s, rs.len() + 1) == doc_next(s, doc_cursor_after(s, rs.len())),
{
    assert forall|i: int| 0 <= i < rs.len() + 1 implies doc_result(
        s,
        doc_cursor_after(s, i as nat),
        #[trigger] rs.push(r)[i],
    ) by {
        if i < rs.len() {
            assert(rs.push(r)[i] == rs[i]);
        }
    }
}

/// The two results are tokens of the same kind, text and offset, with tag
/// descriptors of the same name, attributes, kind and offset; or errors that
/// report the same fault.
pub open spec fn same_doc_result(s: Seq<char>, i: int, x: Result<DocToken, ParseError>, y: Result<DocToken, ParseError>) -> bool {
    match (x, y) {
        (Ok(p), Ok(q)) => p.text@ == q.text@ && p.position == q.position && (p.kind is Tag
            <==> q.kind is Tag) && (p.kind is String <==> q.kind is String) && (p.kind is Whitespace
            <==> q.kind is Whitespace) && (p.kind is EndOfFile <==> q.kind is EndOfFile) && (
        p.kind is Tag ==> same_descriptor(p.kind, q.kind)),
        (Err(p), Err(q)) => doc_lex_step(s, i) matches DocStep::Fault(f) && doc_reports(p, f)
            && doc_reports(q, f),
        _ => false,
    }
}

/// Lexing the same document with two fresh lexers gives the same results, call by call.
pub proof fn lemma_doc_runs_repeat(
    s: Seq<char>,
    a: Seq<Result<DocToken, ParseError>>,
    b: Seq<Result<DocToken, ParseError>>,
)
    requires
        doc_run(s, a),
        doc_run(s, b),
    ensures
        forall|i: int|
            0 <= i < a.len() && i < b.len() ==> same_doc_result(
                s,
                doc_cursor_after(s, i as nat),
                #[trigger] a[i],
                b[i],
            ),
{
    assert forall|i: int| 0 <= i < a.len() && i < b.len() implies same_doc_result(
        s,
        doc_cursor_after(s, i as nat),
        #[trigger] a[i],
        b[i],
    ) by {
        let c = doc_cursor_after(s, i as nat);
        assert(doc_result(s, c, a[i]));
        assert(doc_result(s, c, b[i]));
    }
}

/// The characters of `x` that are not white space, in order.
pub open spec fn strip_ws(x: Seq<char>) -> Seq<char>
    decreases x.len(),
{
    if x.len() == 0 {
        x
    } else if is_ws(x[0]) {
        strip_ws(x.drop_first())
    } else {
        seq![x[0]] + strip_ws(x.drop_first())
    }
}

proof fn lemma_strip_run(s: Seq<char>, i: int, e: int, j: int)
    requires
        0 <= i <= e <= j <= s.len(),
        forall|k: int| i <= k < e ==> !is_ws(#[trigger] s[k]),
    ensures
        strip_ws(s.subrange(i, j)) == s.subrange(i, e) + strip_ws(s.subrange(e, j)),
    decreases e - i,
{
    if i < e {
        lemma_strip_run(s, i + 1, e, j);
        assert(s.subrange(i, j).drop_first() == s.subrange(i + 1, j));
        assert(s.subrange(i, e) == seq![s[i]] + s.subrange(i + 1, e));
    } else {
        assert(s.subrange(i, e) + strip_ws(s.subrange(e, j)) == strip_ws(s.subrange(e, j)));
    }
}

proof fn lemma_add_text_twice(stack: Seq<NodeSpec>, a: Seq<char>, b: Seq<char>)
    ensures
        add_text(add_text(stack, a), b) == add_text(stack, a + b),
{
    if stack.len() > 0 {
        let n = stack.last();
        assert(n.content + a + b == n.content + (a + b));
        assert(add_text(add_text(stack, a), b) =~= add_text(stack, a + b));
    }
}

proof fn lemma_add_no_text(stack: Seq<NodeSpec>)
    ensures
        add_text(stack, Seq::empty()) == stack,
{
    if stack.len() > 0 {
        let n = stack.last();
        assert(n.content + Seq::<char>::empty() == n.content);
        assert(with_text(n, Seq::empty()) == n);
        assert(add_text(stack, Seq::empty()) =~= stack);
    }
}

/// Text between tags: parsing a stretch that holds no `<` and ends at a `<` or at
/// the end of input adds exactly its characters other than white space, in order,
/// to the content of the innermost open node, and changes nothing else.
pub proof fn lemma_text_content_round_trip(
    s: Seq<char>,
    i: int,
    j: int,
    stack: Seq<NodeSpec>,
    root: Option<NodeSpec>,
)
    requires
        0 <= i <= j <= s.len(),
        forall|k: int| i <= k < j ==> #[trigger] s[k] != '<',
        j == s.len() || s[j] == '<',
    ensures
        build_from(s, i, stack, root) == build_from(s, j, add_text(stack, strip_ws(s.subrange(i, j))), root),
    decreases j - i,
{
    if i == j {
        assert(s.subrange(i, j) =~= Seq::<char>::empty());
        lemma_add_no_text(stack);
    } else if is_ws(s[i]) {
        assert(doc_lex_step(s, i) == DocStep::Space);
        lemma_text_content_round_trip(s, i + 1, j, stack, root);
        assert(s.subrange(i, j).drop_first() == s.subrange(i + 1, j));
    } else {
        lemma_text_end(s, i);
        let e = text_end(s, i);
        assert(e <= j) by {
            if e > j && j < s.len() {
                assert(s[j] != '<');
            }
        }
        assert(doc_lex_step(s, i) == DocStep::Text(e));
        lemma_strip_run(s, i, e, j);
        lemma_text_content_round_trip(s, e, j, add_text(stack, s.subrange(i, e)), root);
        lemma_add_text_twice(stack, s.subrange(i, e), strip_ws(s.subrange(e, j)));
    }
}

/// A name as the tag lexer reads it: a first character that may start a name and
/// is not white space, then characters that may continue a name.
pub open spec fn is_name(n: Seq<char>) -> bool {
    &&& n.len() > 0
    &&& is_name_start(n[0])
    &&& !is_ws(n[0])
    &&& forall|k: int| 1 <= k < n.len() ==> is_name_char(#[trigger] n[k])
}

proof fn lemma_name_end_at(s: Seq<char>, i: int, j: int)
    requires
        0 <= i <= j < s.len(),
        forall|k: int| i <= k < j ==> is_name_char(#[trigger] s[k]),
        !is_name_char(s[j]),
    ensures
        name_end(s, i) == j,
    decreases j - i,
{
    if i < j {
        lemma_name_end_at(s, i + 1, j);
    }
}

proof fn lemma_find_char_at(s: Seq<char>, i: int, j: int, q: char)
    requires
        0 <= i <= j < s.len(),
        forall|k: int| i <= k < j ==> #[trigger] s[k] != q,
        s[j] == q,
    ensures
        find_char(s, i, q) == Some(j),
    decreases j - i,
{
    if i < j {
        lemma_find_char_at(s, i + 1, j, q);
    }
}

/// The name `m` found at `p` of `t` is lexed as one name token, up to `p + m.len()`.
proof fn lemma_name_token(t: Seq<char>, p: int, m: Seq<char>)
    requires
        is_name(m),
        0 <= p,
        p + m.len() < t.len(),
        t.subrange(p, p + m.len()) == m,
        t[p + m.len()] == ' ' || t[p + m.len()] == '=',
    ensures
        tag_lex_step(t, p) == Some((TokenKind::String, p + m.len())),
{
    let e = p + m.len();
    assert(t[p] == m[0]);
    assert forall|k: int| p + 1 <= k < e implies is_name_char(#[trigger] t[k]) by {
        assert(t[k] == m[k - p]);
    }
    lemma_name_end_at(t, p + 1, e);
}

/// The literal `v`, quoted by `q` at `p` of `t`, is lexed as one literal token.
proof fn lemma_literal_token(t: Seq<char>, p: int, v: Seq<char>, q: char)
    requires
        q == '\'' || q == '"',
        0 <= p,
        p + v.len() + 1 < t.len(),
        t[p] == q,
        t.subrange(p + 1, p + 1 + v.len()) == v,
        t[p + 1 + v.len()] == q,
        !v.contains(q),
    ensures
        tag_lex_step(t, p) == Some((TokenKind::StringLiteral, p + v.len() + 2)),
        unquote(t.subrange(p, p + v.len() + 2)) == v,
{
    let e = p + 1 + v.len();
    assert forall|k: int| p + 1 <= k < e implies #[trigger] t[k] != q by {
        assert(t[k] == v[k - p - 1]);
    }
    lemma_find_char_at(t, p + 1, e, q);
    assert(unquote(t.subrange(p, p + v.len() + 2)) =~= v);
}

/// The opening tag `<name>`.
pub open spec fn open_tag(name: Seq<char>) -> Seq<char> {
    seq!['<'] + name + seq!['>']
}

/// The closing tag `</name>`.
pub open spec fn close_tag(name: Seq<char>) -> Seq<char> {
    seq!['<', '/'] + name + seq!['>']
}

/// An element to be written out: its name, its children, and the text that
/// stands before each child (`texts[k]` before child `k`) and before its closing
/// tag (the last of `texts`).
pub struct Source {
    pub name: Seq<char>,
    pub texts: Seq<Seq<char>>,
    pub children: Seq<Source>,
}

/// An element written out as tags, with its texts between them.
pub open spec fn render(n: Source) -> Seq<char>
    decreases n, 0int,
{
    open_tag(n.name) + render_children(n.children, n.texts, 0) + n.texts.last() + close_tag(n.name)
}

/// The children `cs[k..]` written out one after the other, each after its text.
pub open spec fn render_children(cs: Seq<Source>, ts: Seq<Seq<char>>, k: int) -> Seq<char>
    decreases cs, cs.len() - k,
{
    if 0 <= k < cs.len() {
        ts[k] + render(cs[k]) + render_children(cs, ts, k + 1)
    } else {
        Seq::empty()
    }
}

/// No `<` in `x`.
pub open spec fn no_bracket(x: Seq<char>) -> bool {
    forall|j: int| 0 <= j < x.len() ==> #[trigger] x[j] != '<'
}

/// Every element has a name as the tag lexer reads it, one text more than it has
/// children, and no `<` in its texts.
pub open spec fn well_formed(n: Source) -> bool
    decreases n,
{
    &&& is_name(n.name)
    &&& n.texts.len() == n.children.len() + 1
    &&& forall|j: int| 0 <= j < n.texts.len() ==> no_bracket(#[trigger] n.texts[j])
    &&& forall|k: int| 0 <= k < n.children.len() ==> well_formed(#[trigger] n.children[k])
}

/// The characters other than white space of `ts[k..e]`, in order.
pub open spec fn stripped_range(ts: Seq<Seq<char>>, k: int, e: int) -> Seq<char>
    decreases e - k,
{
    if k >= e {
        Seq::empty()
    } else {
        strip_ws(ts[k]) + stripped_range(ts, k + 1, e)
    }
}

/// Where the `<` of child `k` stands when `n` is written out from `i`.
pub open spec fn child_at(n: Source, i: int, k: int) -> int {
    i + open_tag(n.name).len() + (render_children(n.children, n.texts, 0).len() - render_children(
        n.children,
        n.texts,
        k,
    ).len()) + n.texts[k].len()
}

/// `m` is what `n`, written out from `i` of `s`, should parse to: the same name,
/// placed at the byte offset of its `<`; as content, the characters other than
/// white space of its own texts, in order; and its children in turn.
pub open spec fn placed(m: NodeSpec, n: Source, s: Seq<char>, i: int) -> bool
    decreases n,
{
    &&& m.name == n.name
    &&& m.pos == byte_at(s, i)
    &&& m.content == stripped_range(n.texts, 0, n.texts.len() as int)
    &&& m.children.len() == n.children.len()
    &&& forall|k: int|
        0 <= k < n.children.len() ==> placed(
            #[trigger] m.children[k],
            n.children[k],
            s,
            child_at(n, i, k),
        )
}

/// The innermost open node with `ms` added after its children and `text` after its content.
pub open spec fn attach_all(stack: Seq<NodeSpec>, ms: Seq<NodeSpec>, text: Seq<char>) -> Seq<NodeSpec> {
    stack.update(
        stack.len() - 1,
        NodeSpec {
            children: stack.last().children + ms,
            content: stack.last().content + text,
            ..stack.last()
        },
    )
}

proof fn lemma_name_end_to_end(s: Seq<char>, i: int)
    requires
        0 <= i <= s.len(),
        forall|k: int| i <= k < s.len() ==> is_name_char(#[trigger] s[k]),
    ensures
        name_end(s, i) == s.len(),
    decreases s.len() - i,
{
    if i < s.len() {
        lemma_name_end_to_end(s, i + 1);
    }
}

/// A name holds no `>`.
proof fn lemma_name_has_no_bracket(n: Seq<char>)
    requires
        is_name(n),
    ensures
        forall|k: int| 0 <= k < n.len() ==> #[trigger] n[k] != '>',
{
    assert forall|k: int| 0 <= k < n.len() implies #[trigger] n[k] != '>' by {
        if k > 0 {
            assert(is_name_char(n[k]));
        }
    }
}

/// The tokens of a name alone, and of `/` followed by a name.
proof fn lemma_name_tags(n: Seq<char>)
    requires
        is_name(n),
    ensures
        parse_tag_text(n) == Ok::<TagSpec, crate::parsetag::TagFault>(
            TagSpec { kind: TagKind::Opening, name: n, attribs: Map::empty() },
        ),
        parse_tag_text(seq!['/'] + n) == Ok::<TagSpec, crate::parsetag::TagFault>(
            TagSpec { kind: TagKind::Closing, name: n, attribs: Map::empty() },
        ),
{
    lemma_name_end_to_end(n, 1);
    let t0: TokSpec = (TokenKind::String, 0, n.len() as int);
    assert(tag_tokens_from(n, n.len() as int) == Ok::<Seq<TokSpec>, int>(Seq::empty()));
    assert(seq![t0] + Seq::<TokSpec>::empty() == seq![t0]);
    assert(tag_tokens(n) == Ok::<Seq<TokSpec>, int>(seq![t0]));
    assert(n.subrange(0, n.len() as int) == n);
    assert(attrs_from(n, seq![t0], 0, Map::empty()) == attrs_from(n, seq![t0], 1, Map::empty()));
    let c = seq!['/'] + n;
    assert forall|k: int| 2 <= k < c.len() implies is_name_char(#[trigger] c[k]) by {
        assert(c[k] == n[k - 1]);
    }
    lemma_name_end_to_end(c, 2);
    let u0: TokSpec = (TokenKind::ForwardSlash, 0, 1);
    let u1: TokSpec = (TokenKind::String, 1, c.len() as int);
    assert(tag_tokens_from(c, c.len() as int) == Ok::<Seq<TokSpec>, int>(Seq::empty()));
    assert(seq![u1] + Seq::<TokSpec>::empty() == seq![u1]);
    assert(c[1] == n[0]);
    assert(tag_tokens_from(c, 1) == Ok::<Seq<TokSpec>, int>(seq![u1]));
    assert(seq![u0] + seq![u1] == seq![u0, u1]);
    assert(tag_tokens(c) == Ok::<Seq<TokSpec>, int>(seq![u0, u1]));
    assert(c.subrange(1, c.len() as int) =~= n);
    assert(attrs_from(c, seq![u0, u1], 1, Map::empty()) == attrs_from(c, seq![u0, u1], 2, Map::empty()));
}

proof fn lemma_sub(s: Seq<char>, i: int, whole: Seq<char>, x: int, y: int)
    requires
        0 <= i,
        i + whole.len() <= s.len(),
        s.subrange(i, i + whole.len()) == whole,
        0 <= x <= y <= whole.len(),
    ensures
        s.subrange(i + x, i + y) == whole.subrange(x, y),
{
    assert(s.subrange(i + x, i + y) =~= whole.subrange(x, y)) by {
        assert forall|k: int| 0 <= k < y - x implies s.subrange(i + x, i + y)[k] == whole.subrange(x, y)[k] by {
            assert(s.subrange(i, i + whole.len())[x + k] == whole[x + k]);
        }
    }
}

/// What the document lexer makes of `<name>` and of `</name>` at `i`.
proof fn lemma_tag_at(s: Seq<char>, i: int, n: Seq<char>, closing: bool)
    requires
        is_name(n),
        0 <= i,
        closing ==> i + close_tag(n).len() <= s.len() && s.subrange(i, i + close_tag(n).len()) == close_tag(n),
        !closing ==> i + open_tag(n).len() <= s.len() && s.subrange(i, i + open_tag(n).len()) == open_tag(n),
    ensures
        closing ==> doc_lex_step(s, i) == DocStep::Tag(
            i + close_tag(n).len(),
            TagSpec { kind: TagKind::Closing, name: n, attribs: Map::empty() },
        ),
        !closing ==> doc_lex_step(s, i) == DocStep::Tag(
            i + open_tag(n).len(),
            TagSpec { kind: TagKind::Opening, name: n, attribs: Map::empty() },
        ),
{
    lemma_name_tags(n);
    lemma_name_has_no_bracket(n);
    let w = if closing { close_tag(n) } else { open_tag(n) };
    let inner = if closing { seq!['/'] + n } else { n };
    assert(w =~= seq!['<'] + inner + seq!['>']);
    assert(s[i] == w[0]);
    let e = i + w.len() - 1;
    assert forall|k: int| i + 1 <= k < e implies #[trigger] s[k] != '>' by {
        assert(s[k] == w[k - i]);
        assert(w[k - i] == inner[k - i - 1]);
    }
    assert(s[e] == w[w.len() - 1]);
    lemma_find_char_at(s, i + 1, e, '>');
    lemma_sub(s, i, w, 1, w.len() - 1);
    assert(w.subrange(1, w.len() - 1) =~= inner);
}

proof fn lemma_stripped_range_last(ts: Seq<Seq<char>>, k: int, e: int)
    requires
        k <= e,
    ensures
        stripped_range(ts, k, e + 1) == stripped_range(ts, k, e) + strip_ws(ts[e]),
    decreases e - k,
{
    if k < e {
        lemma_stripped_range_last(ts, k + 1, e);
        assert(strip_ws(ts[k]) + (stripped_range(ts, k + 1, e) + strip_ws(ts[e])) == strip_ws(ts[k])
            + stripped_range(ts, k + 1, e) + strip_ws(ts[e]));
    } else {
        assert(stripped_range(ts, e + 1, e + 1) == Seq::<char>::empty());
        assert(strip_ws(ts[e]) + Seq::<char>::empty() == strip_ws(ts[e]));
        assert(Seq::<char>::empty() + strip_ws(ts[e]) == strip_ws(ts[e]));
    }
}

/// Text before a tag adds its characters other than white space to the innermost open node.
proof fn lemma_text_stretch(
    s: Seq<char>,
    p: int,
    x: Seq<char>,
    stack: Seq<NodeSpec>,
    root: Option<NodeSpec>,
)
    requires
        0 <= p,
        p + x.len() < s.len(),
        s.subrange(p, p + x.len()) == x,
        no_bracket(x),
        s[p + x.len()] == '<',
    ensures
        build_from(s, p, stack, root) == build_from(s, p + x.len(), add_text(stack, strip_ws(x)), root),
{
    let e = p + x.len();
    assert forall|k: int| p <= k < e implies #[trigger] s[k] != '<' by {
        assert(s.subrange(p, e)[k - p] == s[k]);
        assert(x[k - p] != '<');
    }
    lemma_text_content_round_trip(s, p, e, stack, root);
}

/// Parsing the written-out children `cs[k..]` at `p`, with their texts, adds
/// nodes that stand for them, and the texts' characters other than white space,
/// to the innermost open node.
proof fn lemma_children_parse(
    s: Seq<char>,
    p: int,
    cs: Seq<Source>,
    ts: Seq<Seq<char>>,
    k: int,
    stack: Seq<NodeSpec>,
    root: Option<NodeSpec>,
) -> (ms: Seq<NodeSpec>)
    requires
        0 <= p,
        0 <= k <= cs.len(),
        ts.len() > cs.len(),
        p + render_children(cs, ts, k).len() <= s.len(),
        s.subrange(p, p + render_children(cs, ts, k).len()) == render_children(cs, ts, k),
        forall|j: int| 0 <= j < cs.len() ==> well_formed(#[trigger] cs[j]),
        forall|j: int| 0 <= j < ts.len() ==> no_bracket(#[trigger] ts[j]),
        stack.len() >= 1,
    ensures
        ms.len() == cs.len() - k,
        forall|j: int|
            0 <= j < ms.len() ==> placed(
                #[trigger] ms[j],
                cs[k + j],
                s,
                p + (render_children(cs, ts, k).len() - render_children(cs, ts, k + j).len())
                    + ts[k + j].len(),
            ),
        build_from(s, p, stack, root) == build_from(
            s,
            p + render_children(cs, ts, k).len(),
            attach_all(stack, ms, stripped_range(ts, k, cs.len() as int)),
            root,
        ),
    decreases cs, cs.len() - k,
{
    if k < cs.len() {
        let x = ts[k];
        let r = render(cs[k]);
        let rest = render_children(cs, ts, k + 1);
        let whole = x + r + rest;
        let xl: int = x.len() as int;
        let rl: int = r.len() as int;
        let sl: int = rest.len() as int;
        assert(render_children(cs, ts, k) == whole);
        lemma_sub(s, p, whole, 0, xl);
        lemma_sub(s, p, whole, xl, xl + rl);
        lemma_sub(s, p, whole, xl + rl, xl + rl + sl);
        assert(whole.subrange(0, xl) =~= x);
        assert(whole.subrange(xl, xl + rl) =~= r);
        assert(whole.subrange(xl + rl, xl + rl + sl) =~= rest);
        assert(s[p + xl] == r[0]) by {
            assert(s.subrange(p + xl, p + xl + rl)[0] == s[p + xl]);
        }
        lemma_text_stretch(s, p, x, stack, root);
        let st0 = add_text(stack, strip_ws(x));
        let m = lemma_element_parse(s, p + xl, cs[k], st0, root);
        let st1 = st0.update(st0.len() - 1, with_child(st0.last(), m));
        let more = lemma_children_parse(s, p + xl + rl, cs, ts, k + 1, st1, root);
        let ms = seq![m] + more;
        assert(attach_all(st1, more, stripped_range(ts, k + 1, cs.len() as int)) =~= attach_all(
            stack,
            ms,
            stripped_range(ts, k, cs.len() as int),
        )) by {
            assert(stack.last().children.push(m) + more =~= stack.last().children + ms);
            assert(stack.last().content + strip_ws(x) + stripped_range(ts, k + 1, cs.len() as int)
                =~= stack.last().content + stripped_range(ts, k, cs.len() as int));
        }
        assert forall|j: int| 0 <= j < ms.len() implies placed(
            #[trigger] ms[j],
            cs[k + j],
            s,
            p + (render_children(cs, ts, k).len() - render_children(cs, ts, k + j).len())
                + ts[k + j].len(),
        ) by {
            if j > 0 {
                assert(ms[j] == more[j - 1]);
                assert(cs[k + j] == cs[(k + 1) + (j - 1)]);
            }
        }
        ms
    } else {
        assert(attach_all(stack, Seq::empty(), Seq::empty()) =~= stack) by {
            assert(stack.last().children + Seq::<NodeSpec>::empty() =~= stack.last().children);
            assert(stack.last().content + Seq::<char>::empty() =~= stack.last().content);
        }
        Seq::empty()
    }
}

/// The parts of a written-out element at `i` of `s`, and what its opening tag,
/// children, last text and closing tag do to the parse.
proof fn lemma_element_parts(s: Seq<char>, i: int, n: Source)
    requires
        0 <= i,
        i + render(n).len() <= s.len(),
        s.subrange(i, i + render(n).len()) == render(n),
        well_formed(n),
    ensures
        ({
            let o = open_tag(n.name);
            let body = render_children(n.children, n.texts, 0);
            let x = n.texts.last();
            let q = i + o.len() + body.len();
            &&& s.subrange(i + o.len(), i + o.len() + body.len()) == body
            &&& s.subrange(q, q + x.len()) == x
            &&& q + x.len() < s.len()
            &&& s[q + x.len()] == '<'
            &&& doc_lex_step(s, i) == DocStep::Tag(
                i + o.len(),
                TagSpec { kind: TagKind::Opening, name: n.name, attribs: Map::empty() },
            )
            &&& doc_lex_step(s, q + x.len()) == DocStep::Tag(
                i + render(n).len(),
                TagSpec { kind: TagKind::Closing, name: n.name, attribs: Map::empty() },
            )
        }),
{
    let o = open_tag(n.name);
    let body = render_children(n.children, n.texts, 0);
    let x = n.texts.last();
    let c = close_tag(n.name);
    let whole = render(n);
    assert(whole == o + body + x + c);
    let ol: int = o.len() as int;
    let bl: int = body.len() as int;
    let xl: int = x.len() as int;
    lemma_sub(s, i, whole, 0, ol);
    assert(whole.subrange(0, ol) =~= o);
    lemma_sub(s, i, whole, ol, ol + bl);
    assert(whole.subrange(ol, ol + bl) =~= body);
    lemma_sub(s, i, whole, ol + bl, ol + bl + xl);
    assert(whole.subrange(ol + bl, ol + bl + xl) =~= x);
    lemma_sub(s, i, whole, ol + bl + xl, whole.len() as int);
    assert(whole.subrange(ol + bl + xl, whole.len() as int) =~= c);
    lemma_tag_at(s, i, n.name, false);
    let q = i + ol + bl;
    assert(s[q + xl] == c[0]) by {
        assert(s.subrange(q + xl, i + whole.len())[0] == s[q + xl]);
    }
    lemma_tag_at(s, q + xl, n.name, true);
}

/// Parsing a written-out element at `i` adds one node that stands for it to the
/// innermost open node.
proof fn lemma_element_parse(
    s: Seq<char>,
    i: int,
    n: Source,
    stack: Seq<NodeSpec>,
    root: Option<NodeSpec>,
) -> (m: NodeSpec)
    requires
        0 <= i,
        i + render(n).len() <= s.len(),
        s.subrange(i, i + render(n).len()) == render(n),
        well_formed(n),
        stack.len() >= 1,
    ensures
        placed(m, n, s, i),
        build_from(s, i, stack, root) == build_from(
            s,
            i + render(n).len(),
            stack.update(stack.len() - 1, with_child(stack.last(), m)),
            root,
        ),
    decreases n, 0int,
{
    lemma_element_parts(s, i, n);
    let o = open_tag(n.name);
    let body = render_children(n.children, n.texts, 0);
    let x = n.texts.last();
    let nt = n.texts.len() - 1;
    assert(x == n.texts[nt]);
    let t = TagSpec { kind: TagKind::Opening, name: n.name, attribs: Map::empty() };
    let fresh = fresh_node(t, byte_at(s, i) as int);
    let opened = stack.push(fresh);
    let p = i + o.len();
    assert(build_from(s, i, stack, root) == build_from(s, p, opened, root));
    assert forall|j: int| 0 <= j < n.children.len() implies well_formed(#[trigger] n.children[j]) by {
    }
    let ms = lemma_children_parse(s, p, n.children, n.texts, 0, opened, root);
    let filled = attach_all(opened, ms, stripped_range(n.texts, 0, nt));
    let q = p + body.len();
    lemma_text_stretch(s, q, x, filled, root);
    lemma_stripped_range_last(n.texts, 0, nt);
    let node = NodeSpec {
        children: ms,
        content: stripped_range(n.texts, 0, n.texts.len() as int),
        ..fresh
    };
    let closing = add_text(filled, strip_ws(x));
    assert(closing =~= stack.push(node)) by {
        assert(fresh.children + ms =~= ms);
        assert(fresh.content + stripped_range(n.texts, 0, nt) + strip_ws(x) =~= stripped_range(
            n.texts,
            0,
            n.texts.len() as int,
        ));
    }
    assert(close_top(stack.push(node), root) == (stack.update(stack.len() - 1, with_child(stack.last(), node)), root)) by {
        assert(stack.push(node).drop_last() =~= stack);
    }
    assert forall|k: int| 0 <= k < n.children.len() implies placed(
        #[trigger] node.children[k],
        n.children[k],
        s,
        child_at(n, i, k),
    ) by {
    }
    node
}

/// Nesting and content are kept: a document written out from a well-formed tree,
/// with any text (possibly white space only, possibly empty) between its tags,
/// parses to a root that mirrors the tree level by level. Every node stands at the
/// byte offset of its opening `<`, and its content is exactly the characters
/// other than white space of the texts directly inside it, in source order.
pub proof fn lemma_document_round_trip(n: Source)
    requires
        well_formed(n),
    ensures
        parse_document(render(n)) matches Ok(m) && placed(m, n, render(n), 0),
{
    let s = render(n);
    assert(s.subrange(0, s.len() as int) =~= s);
    lemma_element_parts(s, 0, n);
    let o = open_tag(n.name);
    let body = render_children(n.children, n.texts, 0);
    let x = n.texts.last();
    let nt = n.texts.len() - 1;
    assert(x == n.texts[nt]);
    let t = TagSpec { kind: TagKind::Opening, name: n.name, attribs: Map::empty() };
    let fresh = fresh_node(t, byte_at(s, 0) as int);
    let first = seq![fresh];
    let p = o.len() as int;
    assert(parse_document(s) == build_from(s, p, first, None));
    assert forall|j: int| 0 <= j < n.children.len() implies well_formed(#[trigger] n.children[j]) by {
    }
    let ms = lemma_children_parse(s, p, n.children, n.texts, 0, first, None);
    let filled = attach_all(first, ms, stripped_range(n.texts, 0, nt));
    let q = p + body.len();
    lemma_text_stretch(s, q, x, filled, None);
    lemma_stripped_range_last(n.texts, 0, nt);
    let node = NodeSpec {
        children: ms,
        content: stripped_range(n.texts, 0, n.texts.len() as int),
        ..fresh
    };
    let closing = add_text(filled, strip_ws(x));
    assert(closing =~= seq![node]) by {
        assert(fresh.children + ms =~= ms);
        assert(fresh.content + stripped_range(n.texts, 0, nt) + strip_ws(x) =~= stripped_range(
            n.texts,
            0,
            n.texts.len() as int,
        ));
    }
    assert(close_top(seq![node], None) == (Seq::<NodeSpec>::empty(), Some(node))) by {
        assert(seq![node].drop_last() =~= Seq::<NodeSpec>::empty());
    }
    assert(build_from(s, s.len() as int, Seq::empty(), Some(node)) == Ok::<NodeSpec, crate::parsedoc::DocFault>(node));
    assert forall|k: int| 0 <= k < n.children.len() implies placed(
        #[trigger] node.children[k],
        n.children[k],
        s,
        child_at(n, 0, k),
    ) by {
    }
}

/// One attribute as written in a tag: its key, the quote around its value, and the value.
pub struct AttrSource {
    pub key: Seq<char>,
    pub quote: char,
    pub value: Seq<char>,
}

/// ` key=` followed by the quoted value.
pub open spec fn attr_piece(a: AttrSource) -> Seq<char> {
    seq![' '] + a.key + seq!['=', a.quote] + a.value + seq![a.quote]
}

/// The attributes written one after the other.
pub open spec fn attrs_source(xs: Seq<AttrSource>) -> Seq<char>
    decreases xs.len(),
{
    if xs.len() == 0 {
        Seq::empty()
    } else {
        attr_piece(xs[0]) + attrs_source(xs.drop_first())
    }
}

/// A key that reads as a name, a single or double quote, and a value without that quote.
pub open spec fn attr_ok(a: AttrSource) -> bool {
    &&& is_name(a.key)
    &&& (a.quote == '\'' || a.quote == '"')
    &&& !a.value.contains(a.quote)
}

/// `m` with each attribute inserted in turn, so that a later key wins.
pub open spec fn insert_all(m: Map<Seq<char>, Seq<char>>, xs: Seq<AttrSource>) -> Map<Seq<char>, Seq<char>>
    decreases xs.len(),
{
    if xs.len() == 0 {
        m
    } else {
        insert_all(m.insert(xs[0].key, xs[0].value), xs.drop_first())
    }
}

/// The tokens of the attributes written from `p` on.
pub open spec fn attr_toks(xs: Seq<AttrSource>, p: int) -> Seq<TokSpec>
    decreases xs.len(),
{
    if xs.len() == 0 {
        Seq::empty()
    } else {
        let a = xs[0];
        let ke = p + 1 + a.key.len();
        let le = ke + a.value.len() + 3;
        seq![
            (TokenKind::String, p + 1, ke),
            (TokenKind::Equals, ke, ke + 1),
            (TokenKind::StringLiteral, ke + 1, le),
        ] + attr_toks(xs.drop_first(), le)
    }
}

/// Where the parts of the first attribute stand, when the attributes are written from `p` on.
proof fn lemma_piece_layout(t: Seq<char>, p: int, xs: Seq<AttrSource>)
    requires
        0 <= p <= t.len(),
        t.subrange(p, t.len() as int) == attrs_source(xs),
        xs.len() > 0,
    ensures
        ({
            let a = xs[0];
            let ke = p + 1 + a.key.len();
            let le = ke + a.value.len() + 3;
            &&& le <= t.len()
            &&& t[p] == ' '
            &&& t.subrange(p + 1, ke) == a.key
            &&& t[ke] == '='
            &&& t[ke + 1] == a.quote
            &&& t.subrange(ke + 2, le - 1) == a.value
            &&& t[le - 1] == a.quote
            &&& t.subrange(le, t.len() as int) == attrs_source(xs.drop_first())
        }),
{
    let a = xs[0];
    let w = attrs_source(xs);
    let piece = attr_piece(a);
    let rest = attrs_source(xs.drop_first());
    assert(w == piece + rest);
    let kl: int = a.key.len() as int;
    let vl: int = a.value.len() as int;
    let pl: int = piece.len() as int;
    let wl: int = w.len() as int;
    assert(pl == kl + vl + 4);
    lemma_sub(t, p, w, 0, 1);
    lemma_sub(t, p, w, 1, 1 + kl);
    lemma_sub(t, p, w, 2 + kl + 1, 2 + kl + 1 + vl);
    lemma_sub(t, p, w, pl, wl);
    assert(w.subrange(1, 1 + kl) =~= a.key);
    assert(w.subrange(3 + kl, 3 + kl + vl) =~= a.value);
    assert(w.subrange(pl, wl) =~= rest);
    assert(t[p] == w[0]);
    assert(t[p + 1 + kl] == w[1 + kl]);
    assert(t[p + 2 + kl] == w[2 + kl]);
    assert(t[p + 3 + kl + vl] == w[3 + kl + vl]);
}

/// The attributes written from `p` to the end are lexed into `attr_toks`.
proof fn lemma_attr_tokens(t: Seq<char>, p: int, xs: Seq<AttrSource>)
    requires
        0 <= p <= t.len(),
        t.subrange(p, t.len() as int) == attrs_source(xs),
        forall|i: int| 0 <= i < xs.len() ==> attr_ok(#[trigger] xs[i]),
    ensures
        tag_tokens_from(t, p) == Ok::<Seq<TokSpec>, int>(attr_toks(xs, p)),
    decreases xs.len(),
{
    if xs.len() == 0 {
        assert(attrs_source(xs) == Seq::<char>::empty());
        assert(t.subrange(p, t.len() as int).len() == 0);
        assert(p == t.len());
    } else {
        let a = xs[0];
        assert(attr_ok(a));
        lemma_piece_layout(t, p, xs);
        let ke = p + 1 + a.key.len();
        let le = ke + a.value.len() + 3;
        let rest = xs.drop_first();
        assert forall|i: int| 0 <= i < rest.len() implies attr_ok(#[trigger] rest[i]) by {
            assert(rest[i] == xs[i + 1]);
        }
        lemma_attr_tokens(t, le, rest);
        lemma_name_token(t, p + 1, a.key);
        lemma_literal_token(t, ke + 1, a.value, a.quote);
        let t0: TokSpec = (TokenKind::String, p + 1, ke);
        let t1: TokSpec = (TokenKind::Equals, ke, ke + 1);
        let t2: TokSpec = (TokenKind::StringLiteral, ke + 1, le);
        let tail = attr_toks(rest, le);
        assert(tag_tokens_from(t, ke + 1) == Ok::<Seq<TokSpec>, int>(seq![t2] + tail));
        assert(tag_lex_step(t, ke) == Some((TokenKind::Equals, ke + 1)));
        assert(seq![t1] + (seq![t2] + tail) == seq![t1, t2] + tail);
        assert(tag_tokens_from(t, ke) == Ok::<Seq<TokSpec>, int>(seq![t1, t2] + tail));
        assert(seq![t0] + (seq![t1, t2] + tail) == seq![t0, t1, t2] + tail);
        assert(tag_tokens_from(t, p + 1) == Ok::<Seq<TokSpec>, int>(seq![t0, t1, t2] + tail));
        assert(tag_lex_step(t, p) == Some((TokenKind::Whitespace, p + 1)));
    }
}

/// Scanning the tokens of the attributes records each of them in turn.
proof fn lemma_attr_scan(
    t: Seq<char>,
    p: int,
    xs: Seq<AttrSource>,
    pre: Seq<TokSpec>,
    acc: Map<Seq<char>, Seq<char>>,
)
    requires
        0 <= p <= t.len(),
        t.subrange(p, t.len() as int) == attrs_source(xs),
        forall|i: int| 0 <= i < xs.len() ==> attr_ok(#[trigger] xs[i]),
        pre.len() >= 1,
    ensures
        attrs_from(t, pre + attr_toks(xs, p), pre.len() as int, acc) == Ok::<Map<Seq<char>, Seq<char>>, crate::parsetag::TagFault>(insert_all(acc, xs)),
    decreases xs.len(),
{
    let ts = pre + attr_toks(xs, p);
    let i = pre.len() as int;
    if xs.len() == 0 {
        assert(ts == pre);
    } else {
        let a = xs[0];
        assert(attr_ok(a));
        lemma_piece_layout(t, p, xs);
        let ke = p + 1 + a.key.len();
        let le = ke + a.value.len() + 3;
        let rest = xs.drop_first();
        assert forall|j: int| 0 <= j < rest.len() implies attr_ok(#[trigger] rest[j]) by {
            assert(rest[j] == xs[j + 1]);
        }
        let t0: TokSpec = (TokenKind::String, p + 1, ke);
        let t1: TokSpec = (TokenKind::Equals, ke, ke + 1);
        let t2: TokSpec = (TokenKind::StringLiteral, ke + 1, le);
        let pre2 = pre + seq![t0, t1, t2];
        assert(ts == pre2 + attr_toks(rest, le)) by {
            assert(attr_toks(xs, p) == seq![t0, t1, t2] + attr_toks(rest, le));
        }
        assert(ts[i] == t0);
        assert(ts[i + 1] == t1);
        assert(ts[i + 2] == t2);
        lemma_literal_token(t, ke + 1, a.value, a.quote);
        assert(tok_text(t, t0) == a.key);
        let acc2 = acc.insert(a.key, a.value);
        lemma_attr_scan(t, le, rest, pre2, acc2);
        assert(attrs_from(t, ts, i + 2, acc2) == attrs_from(t, ts, i + 3, acc2));
        assert(attrs_from(t, ts, i + 1, acc) == attrs_from(t, ts, i + 2, acc2));
        assert(attrs_from(t, ts, i, acc) == attrs_from(t, ts, i + 1, acc));
    }
}

/// A tag with any number of attributes: `<n k1=v1 ... km=vm>`, each value in
/// single or double quotes, has the name `n`, opens an element, and maps each
/// key to its value with the quotes removed, whichever quotes were used; where a
/// key repeats, the last value is kept.
pub proof fn lemma_tag_attributes(n: Seq<char>, xs: Seq<AttrSource>)
    requires
        is_name(n),
        forall|i: int| 0 <= i < xs.len() ==> attr_ok(#[trigger] xs[i]),
    ensures
        trim_brackets(seq!['<'] + n + attrs_source(xs) + seq!['>']) == n + attrs_source(xs),
        parse_tag_text(n + attrs_source(xs)) == Ok::<TagSpec, crate::parsetag::TagFault>(
            TagSpec {
                kind: TagKind::Opening,
                name: n,
                attribs: insert_all(Map::empty(), xs),
            },
        ),
{
    let t = n + attrs_source(xs);
    let bracketed = seq!['<'] + t + seq!['>'];
    assert(seq!['<'] + n + attrs_source(xs) + seq!['>'] == bracketed);
    assert(bracketed.subrange(1, bracketed.len() - 1) =~= t);
    let nl: int = n.len() as int;
    assert(t.subrange(nl, t.len() as int) =~= attrs_source(xs));
    assert(t.subrange(0, nl) =~= n);
    lemma_attr_tokens(t, nl, xs);
    let t0: TokSpec = (TokenKind::String, 0, nl);
    if xs.len() == 0 {
        assert(t =~= n);
        lemma_name_end_to_end(t, 1);
    } else {
        lemma_piece_layout(t, nl, xs);
        lemma_name_token(t, 0, n);
    }
    let ts = seq![t0] + attr_toks(xs, nl);
    assert(tag_tokens(t) == Ok::<Seq<TokSpec>, int>(ts));
    assert(ts[0] == t0);
    assert(tok_text(t, t0) == n);
    lemma_attr_scan(t, nl, xs, seq![t0], Map::empty());
    assert(attrs_from(t, ts, 0, Map::empty()) == attrs_from(t, ts, 1, Map::empty()));
}

} // verus!
