//! The node tree that the document parser builds.
use vstd::prelude::*;
use crate::attributes::Attributes;
use crate::chars::{push_all, push_all_str, push_char};
use crate::parsetag::TagSpec;
use crate::parsetag;

verus! {

/// The tag that opened a node: where it starts, its name and attributes.
#[derive(Debug, Clone)]
pub struct XMLTag {
    pub _pos: usize,
    pub name: String,
    pub attributes: Attributes,
}

impl XMLTag {
    pub fn new(_pos: usize, name: String, attributes: Attributes) -> (r: Self)
        ensures
            r._pos == _pos,
            r.name == name,
            r.attributes == attributes,
    {
        XMLTag { _pos, name, attributes }
    }

    /// The opening tag of a node, from the descriptor that the tag parser made.
    pub fn from(base: parsetag::XMLTag) -> (r: Self)
        ensures
            r._pos == base.pos,
            r.name == base.name,
            r.attributes == base.attribs,
    {
        XMLTag { _pos: base.pos, name: base.name, attributes: base.attribs }
    }
}

impl PartialEq for XMLTag {
    /// Same offset, name and attributes.
    fn eq(&self, other: &XMLTag) -> (r: bool) {
        self._pos == other._pos && self.name == other.name && self.attributes == other.attributes
    }
}

impl vstd::std_specs::cmp::PartialEqSpecImpl for XMLTag {
    open spec fn obeys_eq_spec() -> bool {
        true
    }

    open spec fn eq_spec(&self, other: &XMLTag) -> bool {
        self._pos == other._pos && self.name@ == other.name@ && self.attributes@ == other.attributes@
    }
}

/// A node of the tree as the specification sees it.
pub struct NodeSpec {
    pub pos: int,
    pub name: Seq<char>,
    pub attributes: Map<Seq<char>, Seq<char>>,
    pub content: Seq<char>,
    pub children: Seq<NodeSpec>,
}

/// A node of the tree: the opening tag, the text runs found directly inside
/// it, concatenated, and its child nodes in document order.
#[derive(Debug)]
pub struct XMLNode {
    pub tag: XMLTag,
    pub content: String,
    pub children: Vec<XMLNode>,
}

/// A node just opened by the tag `t` found at `pos`: no content, no children.
pub open spec fn fresh_node(t: TagSpec, pos: int) -> NodeSpec {
    NodeSpec { pos, name: t.name, attributes: t.attribs, content: Seq::empty(), children: Seq::empty() }
}

/// `n` with `text` appended to its content.
pub open spec fn with_text(n: NodeSpec, text: Seq<char>) -> NodeSpec {
    NodeSpec { content: n.content + text, ..n }
}

/// `n` with `c` appended to its children.
pub open spec fn with_child(n: NodeSpec, c: NodeSpec) -> NodeSpec {
    NodeSpec { children: n.children.push(c), ..n }
}

impl XMLNode {
    pub open spec fn model(&self) -> NodeSpec
        decreases self,
    {
        NodeSpec {
            pos: self.tag._pos as int,
            name: self.tag.name@,
            attributes: self.tag.attributes@,
            content: self.content@,
            children: Seq::new(
                self.children@.len(),
                |i: int|
                    if 0 <= i < self.children@.len() {
                        self.children@[i].model()
                    } else {
                        arbitrary()
                    },
            ),
        }
    }

    /// Every tag of the subtree has well-formed attributes.
    pub open spec fn wf(&self) -> bool
        decreases self,
    {
        &&& self.tag.attributes.wf()
        &&& forall|i: int| 0 <= i < self.children@.len() ==> (#[trigger] self.children@[i]).wf()
    }

    pub fn new(tag: XMLTag) -> (r: Self)
        requires
            tag.attributes.wf(),
        ensures
            r.wf(),
            r.tag == tag,
            r.content@ == Seq::<char>::empty(),
            r.children@ == Seq::<XMLNode>::empty(),
            r.model() == (NodeSpec {
                pos: tag._pos as int,
                name: tag.name@,
                attributes: tag.attributes@,
                content: Seq::empty(),
                children: Seq::empty(),
            }),
    {
        let r = XMLNode { tag, content: String::new(), children: Vec::new() };
        assert(r.model().children =~= Seq::<NodeSpec>::empty());
        r
    }

    /// Adds `child` as the last child.
    pub fn append_child(&mut self, child: XMLNode)
        requires
            old(self).wf(),
            child.wf(),
        ensures
            final(self).wf(),
            final(self).tag == old(self).tag,
            final(self).content == old(self).content,
            final(self).children@ == old(self).children@.push(child),
            final(self).model() == with_child(old(self).model(), child.model()),
    {
        let ghost before = self.model();
        self.children.push(child);
        assert(self.model().children =~= before.children.push(child.model()));
    }

    /// Appends `content` to the text of this node.
    pub fn push_content(&mut self, content: &str)
        requires
            old(self).wf(),
        ensures
            final(self).wf(),
            final(self).tag == old(self).tag,
            final(self).content@ == old(self).content@ + content@,
            final(self).children == old(self).children,
            final(self).model() == with_text(old(self).model(), content@),
    {
        let ghost before = self.model();
        self.content.append(content);
        assert(self.model().children =~= before.children);
    }
}

/// A string as `{:?}` shows it: between double quotes, with the escapes that
/// std's `Debug` for `str` writes.
pub uninterp spec fn debug_of(s: Seq<char>) -> Seq<char>;

/// Relies on `<str as Debug>::fmt` through `format!("{:?}", ..)`: the quoted,
/// escaped form of `s`, which depends on its characters alone.
#[verifier::external_body]
pub(crate) fn debug_quoted(s: &String) -> (r: String)
    ensures
        r@ == debug_of(s@),
{
    format!("{:?}", s)
}

/// Attribute entries as `{:?}` shows keys and values, `key: value`, separated by `, `.
pub open spec fn entries_text(e: Seq<(String, String)>) -> Seq<char>
    decreases e.len(),
{
    if e.len() == 0 {
        Seq::empty()
    } else {
        let pair = debug_of(e.last().0@) + ": "@ + debug_of(e.last().1@);
        if e.len() == 1 {
            pair
        } else {
            entries_text(e.drop_last()) + ", "@ + pair
        }
    }
}

/// The line that shows one node: indentation, `<name {attributes}>`, and the
/// content in single quotes where there is any.
pub open spec fn node_line(n: XMLNode, prefix: Seq<char>) -> Seq<char> {
    prefix + "<"@ + n.tag.name@ + " {"@ + entries_text(n.tag.attributes.entry_seq()) + "}>"@ + (
    if n.content@.len() > 0 {
        " '"@ + n.content@ + "'"@
    } else {
        Seq::empty()
    }) + "\n"@
}

/// A subtree shown depth first: the node, then its children from the last to the
/// first, each indented by one more space.
pub open spec fn pretty(n: XMLNode, prefix: Seq<char>) -> Seq<char>
    decreases n, 0int,
{
    node_line(n, prefix) + pretty_children(n.children@, prefix.push(' '), n.children@.len() as int)
}

/// The children `cs[..k]` shown from `cs[k - 1]` down to `cs[0]`.
pub open spec fn pretty_children(cs: Seq<XMLNode>, prefix: Seq<char>, k: int) -> Seq<char>
    decreases cs, k,
{
    if 0 < k <= cs.len() {
        pretty(cs[k - 1], prefix) + pretty_children(cs, prefix, k - 1)
    } else {
        Seq::empty()
    }
}

/// Appends `x` as `{:?}` shows it.
fn push_quoted(out: &mut String, x: &String)
    ensures
        final(out)@ == old(out)@ + debug_of(x@),
{
    let shown = debug_quoted(x);
    push_all(out, &shown);
}

impl XMLNode {
    /// The tree as indented text, one line per node (see `pretty`).
    pub fn pretty_format(&self) -> (r: String)
        ensures
            r@ == pretty(*self, Seq::empty()),
    {
        let mut out = String::new();
        let prefix = String::new();
        self.write_pretty(&prefix, &mut out);
        out
    }

    fn write_line(&self, prefix: &String, out: &mut String)
        ensures
            final(out)@ == old(out)@ + node_line(*self, prefix@),
    {
        let ghost base = out@;
        push_all(out, prefix);
        push_all_str(out, "<");
        push_all(out, &self.tag.name);
        push_all_str(out, " {");
        let entries = self.tag.attributes.entries();
        let ghost head = out@;
        let mut i: usize = 0;
        while i < entries.len()
            invariant
                i <= entries@.len(),
                out@ == head + entries_text(entries@.take(i as int)),
            decreases entries@.len() - i,
        {
            if i > 0 {
                push_all_str(out, ", ");
            }
            push_quoted(out, &entries[i].0);
            push_all_str(out, ": ");
            push_quoted(out, &entries[i].1);
            assert(entries@.take(i + 1).drop_last() == entries@.take(i as int));
            assert(entries@.take(i + 1).last() == entries@[i as int]);
            i = i + 1;
        }
        assert(entries@.take(entries@.len() as int) == entries@);
        push_all_str(out, "}>");
        if !self.content.as_str().is_empty() {
            push_all_str(out, " '");
            push_all(out, &self.content);
            push_all_str(out, "'");
        }
        push_all_str(out, "\n");
    }

    fn write_pretty(&self, prefix: &String, out: &mut String)
        ensures
            final(out)@ == old(out)@ + pretty(*self, prefix@),
        decreases self,
    {
        let ghost base = out@;
        self.write_line(prefix, out);
        let mut deeper = prefix.clone();
        push_char(&mut deeper, ' ');
        let mut k: usize = self.children.len();
        while k > 0
            invariant
                k <= self.children@.len(),
                deeper@ == prefix@.push(' '),
                base + pretty(*self, prefix@) == out@ + pretty_children(self.children@, deeper@, k as int),
            decreases k,
        {
            self.children[k - 1].write_pretty(&deeper, out);
            k = k - 1;
        }
    }
}

impl XMLNode {
    /// Whether both subtrees have the same model.
    fn same_tree(&self, other: &XMLNode) -> (r: bool)
        ensures
            r == (self.model() == other.model()),
        decreases self,
    {
        if !(self.tag == other.tag) || self.content != other.content
            || self.children.len() != other.children.len() {
            proof {
                if self.model() == other.model() {
                    assert(self.model().children.len() == self.children@.len());
                }
            }
            return false;
        }
        let mut i: usize = 0;
        while i < self.children.len()
            invariant
                i <= self.children@.len() == other.children@.len(),
                forall|j: int| 0 <= j < i ==> (#[trigger] self.children@[j]).model() == other.children@[j].model(),
            decreases self.children@.len() - i,
        {
            if !self.children[i].same_tree(&other.children[i]) {
                proof {
                    if self.model() == other.model() {
                        assert(self.model().children[i as int] == other.model().children[i as int]);
                    }
                }
                return false;
            }
            i = i + 1;
        }
        assert(self.model().children =~= other.model().children);
        true
    }
}

impl PartialEq for XMLNode {
    /// Same tag, content and children, all the way down.
    fn eq(&self, other: &XMLNode) -> (r: bool) {
        self.same_tree(other)
    }
}

impl vstd::std_specs::cmp::PartialEqSpecImpl for XMLNode {
    open spec fn obeys_eq_spec() -> bool {
        true
    }

    open spec fn eq_spec(&self, other: &XMLNode) -> bool {
        self.model() == other.model()
    }
}

} // verus!
