//! The document tree consumed by the cascade resolver: element, text and
//! comment nodes, element attributes, and the accessors the resolver needs.

use vstd::prelude::*;
use vstd::string::StrSliceExecFns;
use vstd::string::StringExecFns;
use crate::chars::{chars_of, push_char, str_eq, string_from_chars, str_views};
use crate::parser::{scan_end, lemma_scan_end, CharClass, scan_class};

verus! {

/// An attribute mapping with string keys and values. Entries are kept in
/// insertion order; a later entry for the same key shadows an earlier one,
/// so the map's view is the key-to-value mapping with the last write
/// winning.
#[derive(Debug, PartialEq)]
pub struct AttrMap {
    pub entries: Vec<(String, String)>,
}

/// The views of a sequence of attribute entries.
pub open spec fn entry_views(s: Seq<(String, String)>) -> Seq<(Seq<char>, Seq<char>)> {
    Seq::new(s.len(), |i: int| (s[i].0@, s[i].1@))
}

/// The mapping described by a sequence of key-value entries, later entries
/// shadowing earlier ones.
pub open spec fn entries_map<V>(s: Seq<(Seq<char>, V)>) -> Map<Seq<char>, V>
    decreases s.len(),
{
    if s.len() == 0 {
        Map::empty()
    } else {
        entries_map(s.drop_last()).insert(s.last().0, s.last().1)
    }
}

/// If `i` is the last entry holding key `k`, the entry mapping sends `k`
/// to that entry's value.
pub proof fn lemma_entries_map_found<V>(s: Seq<(Seq<char>, V)>, i: int, k: Seq<char>)
    requires
        0 <= i < s.len(),
        s[i].0 == k,
        forall|j: int| i < j < s.len() ==> s[j].0 != k,
    ensures
        entries_map(s).contains_key(k),
        entries_map(s)[k] == s[i].1,
    decreases s.len(),
{
    if i < s.len() - 1 {
        lemma_entries_map_found(s.drop_last(), i, k);
    }
}

/// If no entry holds key `k`, the entry mapping has no key `k`.
pub proof fn lemma_entries_map_absent<V>(s: Seq<(Seq<char>, V)>, k: Seq<char>)
    requires
        forall|j: int| 0 <= j < s.len() ==> s[j].0 != k,
    ensures
        !entries_map(s).contains_key(k),
    decreases s.len(),
{
    if s.len() > 0 {
        lemma_entries_map_absent(s.drop_last(), k);
    }
}

impl View for AttrMap {
    type V = Map<Seq<char>, Seq<char>>;

    open spec fn view(&self) -> Map<Seq<char>, Seq<char>> {
        entries_map(entry_views(self.entries@))
    }
}

impl AttrMap {
    /// An empty attribute mapping.
    pub fn new() -> (m: AttrMap)
        ensures
            m@ == Map::<Seq<char>, Seq<char>>::empty(),
            m.entries@.len() == 0,
    {
        AttrMap { entries: Vec::new() }
    }

    /// Adds a binding from `name` to `value`, shadowing any earlier
    /// binding of the same name.
    pub fn insert(&mut self, name: String, value: String)
        ensures
            final(self)@ == old(self)@.insert(name@, value@),
            final(self).entries@ == old(self).entries@.push((name, value)),
    {
        let ghost old_entries = entry_views(self.entries@);
        let ghost nv = name@;
        let ghost vv = value@;
        self.entries.push((name, value));
        proof {
            assert(entry_views(self.entries@).drop_last() =~= old_entries);
            assert(entry_views(self.entries@).last() == (nv, vv));
        }
    }

    /// Looks a name up, returning the value of its last binding.
    pub fn get(&self, name: &str) -> (r: Option<&String>)
        ensures
            match r {
                Some(v) => self@.contains_key(name@) && v@ == self@[name@],
                None => !self@.contains_key(name@),
            },
    {
        let n = self.entries.len();
        let mut i: usize = n;
        while i > 0
            invariant
                n == self.entries@.len(),
                i <= n,
                forall|j: int| i <= j < n ==> entry_views(self.entries@)[j].0 != name@,
            decreases i,
        {
            i = i - 1;
            if str_eq(self.entries[i].0.as_str(), name) {
                proof {
                    lemma_entries_map_found(entry_views(self.entries@), i as int, name@);
                }
                return Some(&self.entries[i].1);
            }
        }
        proof {
            lemma_entries_map_absent(entry_views(self.entries@), name@);
        }
        None
    }
}

/// The view of an element: its tag name and its attribute mapping.
#[verifier::ext_equal]
pub struct ElemV {
    pub tag: Seq<char>,
    pub attrs: Map<Seq<char>, Seq<char>>,
}

/// The data associated with an element node.
#[derive(Debug, PartialEq)]
pub struct ElementData {
    /// The name of the element's tag.
    pub tag_name: String,
    /// The attributes of the element.
    pub attributes: AttrMap,
}

impl View for ElementData {
    type V = ElemV;

    open spec fn view(&self) -> ElemV {
        ElemV { tag: self.tag_name@, attrs: self.attributes@ }
    }
}

/// The view of a node's type.
#[verifier::ext_equal]
pub enum NodeTypeV {
    Text(Seq<char>),
    Element(ElemV),
    Comment(Seq<char>),
}

/// The type of a node in the document tree.
#[derive(Debug, PartialEq)]
pub enum NodeType {
    /// A text node containing a string.
    Text(String),
    /// An element node containing element data.
    Element(ElementData),
    /// A comment node containing a string.
    Comment(String),
}

impl View for NodeType {
    type V = NodeTypeV;

    open spec fn view(&self) -> NodeTypeV {
        match self {
            NodeType::Text(s) => NodeTypeV::Text(s@),
            NodeType::Element(e) => NodeTypeV::Element(e@),
            NodeType::Comment(s) => NodeTypeV::Comment(s@),
        }
    }
}

/// The view of a document node: its type and its children, in order.
#[verifier::ext_equal]
pub struct NodeV {
    pub kind: NodeTypeV,
    pub children: Seq<NodeV>,
}

/// A node in the document tree.
#[derive(Debug, PartialEq)]
pub struct Node {
    /// The child nodes of this node.
    pub children: Vec<Node>,
    /// The type of this node.
    pub node_type: NodeType,
}

impl View for Node {
    type V = NodeV;

    open spec fn view(&self) -> NodeV
        decreases self,
    {
        NodeV { kind: self.node_type@, children: nodes_view(self.children@) }
    }
}

/// The views of a sequence of document nodes, in order.
pub open spec fn nodes_view(s: Seq<Node>) -> Seq<NodeV>
    decreases s,
{
    if s.len() == 0 {
        Seq::empty()
    } else {
        seq![s[0]@] + nodes_view(s.drop_first())
    }
}

/// The view sequence has one view per node.
pub broadcast proof fn lemma_nodes_view_len(s: Seq<Node>)
    ensures
        (#[trigger] nodes_view(s)).len() == s.len(),
    decreases s,
{
    if s.len() == 0 {
        assert(nodes_view(s) =~= Seq::<NodeV>::empty());
    } else {
        lemma_nodes_view_len(s.drop_first());
        assert(nodes_view(s) == seq![s[0]@] + nodes_view(s.drop_first()));
    }
}

/// Appending a node appends its view.
pub proof fn lemma_nodes_view_push(s: Seq<Node>, x: Node)
    ensures
        nodes_view(s.push(x)) =~= nodes_view(s) + seq![x@],
    decreases s,
{
    assert(s.push(x).len() == s.len() + 1);
    if s.len() == 0 {
        assert(s.push(x)[0] == x);
        assert(s.push(x).drop_first() =~= Seq::<Node>::empty());
        assert(nodes_view(Seq::<Node>::empty()) =~= Seq::<NodeV>::empty());
        assert(nodes_view(s.push(x)) == seq![s.push(x)[0]@] + nodes_view(s.push(x).drop_first()));
        assert(nodes_view(s) =~= Seq::<NodeV>::empty());
    } else {
        assert(s.push(x)[0] == s[0]);
        assert(s.push(x).drop_first() =~= s.drop_first().push(x));
        lemma_nodes_view_push(s.drop_first(), x);
        assert(nodes_view(s.push(x)) == seq![s.push(x)[0]@] + nodes_view(s.push(x).drop_first()));
        assert(nodes_view(s) == seq![s[0]@] + nodes_view(s.drop_first()));
    }
}

/// Each position of the view sequence holds the view of the node there.
pub broadcast proof fn lemma_nodes_view_index(s: Seq<Node>, i: int)
    requires
        0 <= i < s.len(),
    ensures
        #[trigger] nodes_view(s)[i] == s[i]@,
    decreases s,
{
    lemma_nodes_view_len(s);
    assert(nodes_view(s) == seq![s[0]@] + nodes_view(s.drop_first()));
    if i > 0 {
        lemma_nodes_view_index(s.drop_first(), i - 1);
    }
}

/// Creates a new text node with the given data.
pub fn text(data: String) -> (r: Node)
    ensures
        r@.kind == NodeTypeV::Text(data@),
        r@.children =~= Seq::<NodeV>::empty(),
{
    Node { children: Vec::new(), node_type: NodeType::Text(data) }
}

/// Creates a new element node with the given tag name, attributes and
/// children.
pub fn elem(name: String, attrs: AttrMap, children: Vec<Node>) -> (r: Node)
    ensures
        r@.kind == NodeTypeV::Element(ElemV { tag: name@, attrs: attrs@ }),
        r@.children == nodes_view(children@),
{
    Node {
        children,
        node_type: NodeType::Element(ElementData { tag_name: name, attributes: attrs }),
    }
}

/// Creates a new comment node with the given data.
pub fn comment(data: String) -> (r: Node)
    ensures
        r@.kind == NodeTypeV::Comment(data@),
        r@.children =~= Seq::<NodeV>::empty(),
{
    Node { children: Vec::new(), node_type: NodeType::Comment(data) }
}

/// Splits a character sequence at each whitespace character; the pieces
/// between (and around) the separators, in order, empty pieces included.
pub open spec fn split_from(s: Seq<char>, p: int) -> Seq<Seq<char>>
    decreases s.len() - p,
{
    if !(0 <= p <= s.len()) {
        Seq::empty()
    } else {
        let e = scan_end(s, p, CharClass::NotSpace);
        proof {
            lemma_scan_end(s, p, CharClass::NotSpace);
        }
        if e >= s.len() {
            seq![s.subrange(p, s.len() as int)]
        } else {
            seq![s.subrange(p, e)] + split_from(s, e + 1)
        }
    }
}

/// The whitespace-split pieces of a class attribute value.
pub open spec fn split_classes(s: Seq<char>) -> Seq<Seq<char>> {
    split_from(s, 0)
}

impl ElementData {
    /// The element's `id` attribute, if present.
    pub fn id(&self) -> (r: Option<&String>)
        ensures
            match r {
                Some(v) => self@.attrs.contains_key("id"@) && v@ == self@.attrs["id"@],
                None => !self@.attrs.contains_key("id"@),
            },
    {
        self.attributes.get("id")
    }

    /// The element's class names: the value of its `class` attribute
    /// split at whitespace, in order (duplicates possible), or nothing
    /// when the attribute is absent.
    pub fn classes(&self) -> (r: Vec<String>)
        ensures
            ({
                let attrs = self@.attrs;
                if attrs.contains_key("class"@) {
                    str_views(r@) == split_classes(attrs["class"@])
                } else {
                    r@.len() == 0
                }
            }),
    {
        match self.attributes.get("class") {
            None => Vec::new(),
            Some(classlist) => {
                let v = chars_of(classlist.as_str());
                let ghost s = v@;
                let mut out: Vec<String> = Vec::new();
                let mut p: usize = 0;
                loop
                    invariant_except_break
                        split_from(s, 0) =~= str_views(out@) + split_from(s, p as int),
                    invariant
                        s == v@,
                        p <= s.len(),
                    ensures
                        str_views(out@) =~= split_from(s, 0),
                    decreases s.len() - p,
                {
                    let e = scan_class(&v, p, CharClass::NotSpace);
                    let mut piece: Vec<char> = Vec::new();
                    let mut j: usize = p;
                    while j < e
                        invariant
                            p <= j <= e <= s.len(),
                            s == v@,
                            piece@ == s.subrange(p as int, j as int),
                        decreases e - j,
                    {
                        piece.push(v[j]);
                        j = j + 1;
                        proof {
                            assert(piece@ =~= s.subrange(p as int, j as int));
                        }
                    }
                    let piece_str = string_from_chars(&piece);
                    let ghost old_out = out@;
                    out.push(piece_str);
                    proof {
                        assert(str_views(out@) =~= str_views(old_out) + seq![
                            s.subrange(p as int, e as int),
                        ]);
                    }
                    if e >= v.len() {
                        proof {
                            assert(split_from(s, p as int) =~= seq![
                                s.subrange(p as int, s.len() as int),
                            ]);
                            assert(str_views(out@) =~= split_from(s, 0));
                        }
                        break;
                    }
                    proof {
                        assert(split_from(s, p as int) =~= seq![s.subrange(p as int, e as int)]
                            + split_from(s, e + 1));
                        assert(split_from(s, 0) =~= str_views(out@) + split_from(s, e + 1));
                    }
                    p = e + 1;
                }
                out
            },
        }
    }
}

/// The all-spaces indentation prefixes used by tree rendering, and the
/// rendered form of a node: its own line (or lines) at the given prefix,
/// children indented by two more spaces.
pub open spec fn render(n: NodeV, prefix: Seq<char>) -> Seq<char>
    decreases n,
{
    match n.kind {
        NodeTypeV::Text(t) => prefix + t + seq!['\n'],
        NodeTypeV::Element(e) => prefix + seq!['<'] + e.tag + seq!['>', '\n'] + render_nodes(
            n.children,
            prefix + seq![' ', ' '],
        ) + prefix + seq!['<', '\\'] + e.tag + seq!['>', '\n'],
        NodeTypeV::Comment(c) => prefix + seq!['<', '!', '-', '-', ' '] + c + seq![
            ' ',
            '-',
            '-',
            '>',
            '\n',
        ],
    }
}

/// The concatenation of the rendered forms of a sequence of nodes.
pub open spec fn render_nodes(ns: Seq<NodeV>, prefix: Seq<char>) -> Seq<char>
    decreases ns,
{
    if ns.len() == 0 {
        Seq::empty()
    } else {
        render(ns[0], prefix) + render_nodes(ns.drop_first(), prefix)
    }
}

impl Node {
    /// Renders the document tree rooted at this node, one line per tag or
    /// text run, children indented two spaces below their parent.
    pub fn pretty_print(&self) -> (r: String)
        ensures
            r@ == render(self@, Seq::<char>::empty()),
    {
        let prefix = String::new();
        self.pretty_print_helper(&prefix)
    }

    /// Renders this node with the given indentation prefix.
    fn pretty_print_helper(&self, prefix: &String) -> (r: String)
        ensures
            r@ == render(self@, prefix@),
        decreases *self,
    {
        broadcast use {lemma_nodes_view_len, lemma_nodes_view_index};

        let mut r = String::new();
        r.append(prefix.as_str());
        match &self.node_type {
            NodeType::Text(t) => {
                r.append(t.as_str());
                push_char(&mut r, '\n');
                proof {
                    assert(r@ =~= render(self@, prefix@));
                }
            },
            NodeType::Element(elem_data) => {
                push_char(&mut r, '<');
                r.append(elem_data.tag_name.as_str());
                push_char(&mut r, '>');
                push_char(&mut r, '\n');
                let mut child_prefix = String::new();
                child_prefix.append(prefix.as_str());
                push_char(&mut child_prefix, ' ');
                push_char(&mut child_prefix, ' ');
                let ghost header = r@;
                proof {
                    lemma_nodes_view_len(self.children@);
                    assert(self@.children == nodes_view(self.children@));
                }
                let mut i: usize = 0;
                while i < self.children.len()
                    invariant
                        i <= self.children@.len(),
                        self@.children.len() == self.children@.len(),
                        child_prefix@ == prefix@ + seq![' ', ' '],
                        r@ == header + render_nodes(
                            self@.children.subrange(0, i as int),
                            child_prefix@,
                        ),
                        header == prefix@ + seq!['<'] + self.node_type@->Element_0.tag + seq![
                            '>',
                            '\n',
                        ],
                        self.node_type@ is Element,
                    decreases self.children@.len() - i,
                {
                    proof {
                        broadcast use {lemma_nodes_view_len, lemma_nodes_view_index};

                        assert(decreases_to!(*self => self.children));
                        assert(decreases_to!(self.children => self.children@));
                        assert(decreases_to!(self.children@ => self.children@[i as int]));
                    }
                    let child_r = self.children[i].pretty_print_helper(&child_prefix);
                    r.append(child_r.as_str());
                    i = i + 1;
                    proof {
                        lemma_render_nodes_snoc(self@.children, i as int, child_prefix@);
                        lemma_nodes_view_index(self.children@, i - 1);
                        assert(self@.children == nodes_view(self.children@));
                        assert(self@.children[i - 1] == self.children@[i - 1]@);
                        assert(r@ =~= header + render_nodes(
                            self@.children.subrange(0, i as int),
                            child_prefix@,
                        ));
                    }
                }
                proof {
                    assert(self@.children.subrange(0, self@.children.len() as int)
                        =~= self@.children);
                }
                r.append(prefix.as_str());
                push_char(&mut r, '<');
                push_char(&mut r, '\\');
                r.append(elem_data.tag_name.as_str());
                push_char(&mut r, '>');
                push_char(&mut r, '\n');
                proof {
                    assert(r@ =~= render(self@, prefix@));
                }
            },
            NodeType::Comment(c) => {
                push_char(&mut r, '<');
                push_char(&mut r, '!');
                push_char(&mut r, '-');
                push_char(&mut r, '-');
                push_char(&mut r, ' ');
                r.append(c.as_str());
                push_char(&mut r, ' ');
                push_char(&mut r, '-');
                push_char(&mut r, '-');
                push_char(&mut r, '>');
                push_char(&mut r, '\n');
                proof {
                    assert(r@ =~= render(self@, prefix@));
                }
            },
        }
        r
    }
}

/// Rendering one more node extends the rendered prefix of a node sequence.
pub proof fn lemma_render_nodes_snoc(ns: Seq<NodeV>, i: int, prefix: Seq<char>)
    requires
        0 < i <= ns.len(),
    ensures
        render_nodes(ns.subrange(0, i), prefix) =~= render_nodes(ns.subrange(0, i - 1), prefix)
            + render(ns[i - 1], prefix),
    decreases i,
{
    if i == 1 {
        assert(ns.subrange(0, 1).drop_first() =~= Seq::<NodeV>::empty());
        assert(ns.subrange(0, 0) =~= Seq::<NodeV>::empty());
        assert(ns.subrange(0, 1)[0] == ns[0]);
    } else {
        lemma_render_nodes_snoc(ns.drop_first(), i - 1, prefix);
        assert(ns.subrange(0, i).drop_first() =~= ns.drop_first().subrange(0, i - 1));
        assert(ns.subrange(0, i - 1).drop_first() =~= ns.drop_first().subrange(0, i - 2));
        assert(ns.subrange(0, i)[0] == ns[0]);
        assert(ns.subrange(0, i - 1)[0] == ns[0]);
        assert(ns.drop_first()[i - 2] == ns[i - 1]);
    }
}

} // verus!
