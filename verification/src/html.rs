//! The document-tree grammar: a parser that turns markup text into a tree
//! of element, text and comment nodes for the cascade resolver to consume.

use vstd::prelude::*;
use vstd::string::StringExecFns;
use crate::parser::{
    CharClass, Parser, lemma_scan_end, scan_end, seq_starts_with,
};
use crate::dom::{
    elem, entries_map, text, AttrMap, ElemV, Node, NodeTypeV, NodeV, nodes_view,
};

verus! {

/// Lowercases one ASCII letter; every other character is unchanged.
pub open spec fn lower_char(c: char) -> char {
    if c == 'A' {
        'a'
    } else if c == 'B' {
        'b'
    } else if c == 'C' {
        'c'
    } else if c == 'D' {
        'd'
    } else if c == 'E' {
        'e'
    } else if c == 'F' {
        'f'
    } else if c == 'G' {
        'g'
    } else if c == 'H' {
        'h'
    } else if c == 'I' {
        'i'
    } else if c == 'J' {
        'j'
    } else if c == 'K' {
        'k'
    } else if c == 'L' {
        'l'
    } else if c == 'M' {
        'm'
    } else if c == 'N' {
        'n'
    } else if c == 'O' {
        'o'
    } else if c == 'P' {
        'p'
    } else if c == 'Q' {
        'q'
    } else if c == 'R' {
        'r'
    } else if c == 'S' {
        's'
    } else if c == 'T' {
        't'
    } else if c == 'U' {
        'u'
    } else if c == 'V' {
        'v'
    } else if c == 'W' {
        'w'
    } else if c == 'X' {
        'x'
    } else if c == 'Y' {
        'y'
    } else if c == 'Z' {
        'z'
    } else {
        c
    }
}

/// The ASCII-lowercased form of a character sequence.
pub open spec fn lower_seq(s: Seq<char>) -> Seq<char> {
    Seq::new(s.len(), |i: int| lower_char(s[i]))
}

/// Lowercases one ASCII letter, executably.
pub fn lower_char_of(c: char) -> (r: char)
    ensures
        r == lower_char(c),
{
    match c {
        'A' => 'a',
        'B' => 'b',
        'C' => 'c',
        'D' => 'd',
        'E' => 'e',
        'F' => 'f',
        'G' => 'g',
        'H' => 'h',
        'I' => 'i',
        'J' => 'j',
        'K' => 'k',
        'L' => 'l',
        'M' => 'm',
        'N' => 'n',
        'O' => 'o',
        'P' => 'p',
        'Q' => 'q',
        'R' => 'r',
        'S' => 's',
        'T' => 't',
        'U' => 'u',
        'V' => 'v',
        'W' => 'w',
        'X' => 'x',
        'Y' => 'y',
        'Z' => 'z',
        _ => c,
    }
}

/// The ASCII-lowercased copy of a string.
pub fn lower_string(s: &String) -> (r: String)
    ensures
        r@ == lower_seq(s@),
{
    let v = crate::chars::chars_of(s.as_str());
    let mut out = String::new();
    let mut i: usize = 0;
    while i < v.len()
        invariant
            i <= v@.len(),
            v@ == s@,
            out@ == lower_seq(s@).take(i as int),
        decreases v@.len() - i,
    {
        let lc = lower_char_of(v[i]);
        crate::chars::push_char(&mut out, lc);
        i = i + 1;
        proof {
            assert(out@ =~= lower_seq(s@).take(i as int));
        }
    }
    proof {
        assert(lower_seq(s@).take(s@.len() as int) =~= lower_seq(s@));
    }
    out
}

/// Parses a quoted attribute value at `p`: the quote character (any one
/// character), the value up to the next occurrence of that character, and
/// the closing quote. Fails only at the end of the input.
pub open spec fn hp_attr_value(s: Seq<char>, p: int) -> Result<(Seq<char>, int), ()> {
    if !(0 <= p && p < s.len()) {
        Err(())
    } else {
        let quote = s[p];
        let e = scan_end(s, p + 1, CharClass::NotChar(quote));
        if e < s.len() {
            Ok((s.subrange(p + 1, e), e + 1))
        } else {
            Err(())
        }
    }
}

/// A successful attribute-value parse moves forward.
pub proof fn lemma_hp_attr_value_progress(s: Seq<char>, p: int)
    requires
        0 <= p <= s.len(),
    ensures
        match hp_attr_value(s, p) {
            Ok(v) => p < v.1 <= s.len(),
            Err(_) => true,
        },
{
    if 0 <= p && p < s.len() {
        lemma_scan_end(s, p + 1, CharClass::NotChar(s[p]));
    }
}

/// Parses one attribute at `p`: a name, optional whitespace, the `=`
/// separator (any one character), optional whitespace, and a quoted
/// value. Fails only at the end of the input.
pub open spec fn hp_attribute(s: Seq<char>, p: int) -> Result<((Seq<char>, Seq<char>), int), ()> {
    let e1 = scan_end(s, p, CharClass::TagName);
    let e2 = scan_end(s, e1, CharClass::Space);
    if !(0 <= e2 && e2 < s.len()) {
        Err(())
    } else {
        let e4 = scan_end(s, e2 + 1, CharClass::Space);
        match hp_attr_value(s, e4) {
            Ok(v) => Ok(((s.subrange(p, e1), v.0), v.1)),
            Err(e) => Err(e),
        }
    }
}

/// A successful attribute parse moves forward.
pub proof fn lemma_hp_attribute_progress(s: Seq<char>, p: int)
    requires
        0 <= p <= s.len(),
    ensures
        match hp_attribute(s, p) {
            Ok(a) => p < a.1 <= s.len(),
            Err(_) => true,
        },
{
    lemma_scan_end(s, p, CharClass::TagName);
    let e1 = scan_end(s, p, CharClass::TagName);
    lemma_scan_end(s, e1, CharClass::Space);
    let e2 = scan_end(s, e1, CharClass::Space);
    if 0 <= e2 && e2 < s.len() {
        lemma_scan_end(s, e2 + 1, CharClass::Space);
        let e4 = scan_end(s, e2 + 1, CharClass::Space);
        lemma_hp_attr_value_progress(s, e4);
    }
}

/// Parses the attribute list of an opening tag: attributes separated by
/// whitespace, ending before `>` or `/` or at the end of the input.
pub open spec fn hp_attributes(s: Seq<char>, p: int) -> Result<
    (Seq<(Seq<char>, Seq<char>)>, int),
    (),
>
    decreases s.len() - p,
{
    let p1 = scan_end(s, p, CharClass::Space);
    if !(0 <= p1 && p1 < s.len()) {
        Ok((Seq::empty(), p1))
    } else if s[p1] == '>' || s[p1] == '/' {
        Ok((Seq::empty(), p1))
    } else {
        match hp_attribute(s, p1) {
            Ok(a) => {
                proof {
                    assert(0 <= p) by {
                        if p < 0 {
                            assert(p1 == p);
                        }
                    }
                    assert(p <= s.len()) by {
                        if p > s.len() {
                            assert(p1 == p);
                        }
                    }
                    lemma_scan_end(s, p, CharClass::Space);
                    lemma_hp_attribute_progress(s, p1);
                }
                match hp_attributes(s, a.1) {
                    Ok(rest) => Ok((seq![a.0] + rest.0, rest.1)),
                    Err(e) => Err(e),
                }
            },
            Err(e) => Err(e),
        }
    }
}

/// The attribute-list parse stays in the input.
pub proof fn lemma_hp_attributes_bounds(s: Seq<char>, p: int)
    requires
        0 <= p <= s.len(),
    ensures
        match hp_attributes(s, p) {
            Ok(a) => p <= a.1 <= s.len(),
            Err(_) => true,
        },
    decreases s.len() - p,
{
    lemma_scan_end(s, p, CharClass::Space);
    let p1 = scan_end(s, p, CharClass::Space);
    if 0 <= p1 && p1 < s.len() && !(s[p1] == '>' || s[p1] == '/') {
        lemma_hp_attribute_progress(s, p1);
        match hp_attribute(s, p1) {
            Ok(a) => {
                lemma_hp_attributes_bounds(s, a.1);
            },
            Err(_) => {},
        }
    }
}

/// Parses an opening tag at `p`: `<`, a tag name, attributes, `>`. The
/// introducing and closing characters are consumed without being checked,
/// as the scanner's position already vouches for them.
pub open spec fn hp_opening(s: Seq<char>, p: int) -> Result<
    ((Seq<char>, Seq<(Seq<char>, Seq<char>)>), int),
    (),
> {
    if !(0 <= p && p < s.len()) {
        Err(())
    } else {
        let e0 = scan_end(s, p + 1, CharClass::TagName);
        match hp_attributes(s, e0) {
            Ok(a) => if a.1 < s.len() {
                Ok(((s.subrange(p + 1, e0), a.0), a.1 + 1))
            } else {
                Err(())
            },
            Err(e) => Err(e),
        }
    }
}

/// A successful opening-tag parse moves forward.
pub proof fn lemma_hp_opening_progress(s: Seq<char>, p: int)
    requires
        0 <= p <= s.len(),
    ensures
        match hp_opening(s, p) {
            Ok(o) => p < o.1 <= s.len(),
            Err(_) => true,
        },
{
    if 0 <= p && p < s.len() {
        lemma_scan_end(s, p + 1, CharClass::TagName);
        lemma_hp_attributes_bounds(s, scan_end(s, p + 1, CharClass::TagName));
    }
}

/// Parses a closing tag at `p`: `<`, `/`, a tag name, `>`; as in the
/// opening tag, the fixed characters are consumed without being checked.
pub open spec fn hp_closing(s: Seq<char>, p: int) -> Result<(Seq<char>, int), ()> {
    if !(0 <= p && p < s.len() && p + 1 < s.len()) {
        Err(())
    } else {
        let e = scan_end(s, p + 2, CharClass::TagName);
        if e < s.len() {
            Ok((s.subrange(p + 2, e), e + 1))
        } else {
            Err(())
        }
    }
}

/// A successful closing-tag parse moves forward.
pub proof fn lemma_hp_closing_progress(s: Seq<char>, p: int)
    requires
        0 <= p <= s.len(),
    ensures
        match hp_closing(s, p) {
            Ok(c) => p < c.1 <= s.len(),
            Err(_) => true,
        },
{
    if 0 <= p && p + 1 < s.len() {
        lemma_scan_end(s, p + 2, CharClass::TagName);
    }
}

/// Parses one node at `p`: an element when `<` stands there, otherwise a
/// text run up to the next `<`.
pub open spec fn hp_node(s: Seq<char>, p: int) -> Result<(NodeV, int), ()>
    decreases s.len() - p, 1int,
{
    if !(0 <= p && p < s.len()) {
        Err(())
    } else if s[p] == '<' {
        hp_element(s, p)
    } else {
        let e = scan_end(s, p, CharClass::NotChar('<'));
        Ok((NodeV { kind: NodeTypeV::Text(s.subrange(p, e)), children: Seq::empty() }, e))
    }
}

/// Parses an element at `p`: an opening tag, child nodes, and a closing
/// tag whose lowercased name must equal the opening tag's; the element's
/// tag name is stored lowercased.
pub open spec fn hp_element(s: Seq<char>, p: int) -> Result<(NodeV, int), ()>
    decreases s.len() - p, 0int,
{
    match hp_opening(s, p) {
        Ok(o) => {
            proof {
                assert(0 <= p && p < s.len());
                lemma_hp_opening_progress(s, p);
            }
            if !(p < o.1 <= s.len()) {
                Err(())
            } else {
                match hp_nodes(s, o.1) {
                    Ok(c) => {
                        match hp_closing(s, c.1) {
                            Ok(ct) => if lower_seq(o.0.0) == lower_seq(ct.0) {
                                Ok(
                                    (
                                        NodeV {
                                            kind: NodeTypeV::Element(
                                                ElemV {
                                                    tag: lower_seq(o.0.0),
                                                    attrs: entries_map(o.0.1),
                                                },
                                            ),
                                            children: c.0,
                                        },
                                        ct.1,
                                    ),
                                )
                            } else {
                                Err(())
                            },
                            Err(e) => Err(e),
                        }
                    },
                    Err(e) => Err(e),
                }
            }
        },
        Err(e) => Err(e),
    }
}

/// Parses a run of sibling nodes at `p`, ending at the end of the input
/// or before a closing tag.
pub open spec fn hp_nodes(s: Seq<char>, p: int) -> Result<(Seq<NodeV>, int), ()>
    decreases s.len() - p, 2int,
{
    let p1 = scan_end(s, p, CharClass::Space);
    if !(0 <= p1 && p1 < s.len()) {
        Ok((Seq::empty(), p1))
    } else if seq_starts_with(s, p1, seq!['<', '/']) {
        Ok((Seq::empty(), p1))
    } else {
        proof {
            assert(0 <= p) by {
                if p < 0 {
                    assert(p1 == p);
                }
            }
            assert(p <= s.len()) by {
                if p > s.len() {
                    assert(p1 == p);
                }
            }
            lemma_scan_end(s, p, CharClass::Space);
        }
        match hp_node(s, p1) {
            Ok(n) => if !(p1 < n.1 && n.1 <= s.len()) {
                Err(())
            } else {
                match hp_nodes(s, n.1) {
                    Ok(rest) => Ok((seq![n.0] + rest.0, rest.1)),
                    Err(e) => Err(e),
                }
            },
            Err(e) => Err(e),
        }
    }
}

/// A successful node parse moves forward; a successful run parse stays in
/// the input.
pub proof fn lemma_hp_progress(s: Seq<char>, p: int)
    requires
        0 <= p <= s.len(),
    ensures
        match hp_node(s, p) {
            Ok(n) => p < n.1 <= s.len(),
            Err(_) => true,
        },
        match hp_element(s, p) {
            Ok(n) => p < n.1 <= s.len(),
            Err(_) => true,
        },
        match hp_nodes(s, p) {
            Ok(ns) => p <= ns.1 <= s.len(),
            Err(_) => true,
        },
    decreases s.len() - p, 3int,
{
    // the node form
    if 0 <= p && p < s.len() && !(s[p] == '<') {
        lemma_scan_end(s, p, CharClass::NotChar('<'));
    }
    // the element form
    lemma_hp_opening_progress(s, p);
    match hp_opening(s, p) {
        Ok(o) => {
            if p < o.1 <= s.len() {
                lemma_hp_progress_nodes(s, o.1);
                match hp_nodes(s, o.1) {
                    Ok(c) => {
                        lemma_hp_closing_progress(s, c.1);
                    },
                    Err(_) => {},
                }
            }
        },
        Err(_) => {},
    }
    // the run form
    lemma_hp_progress_nodes(s, p);
}

/// Prepends already-parsed attribute entries to the rest of an
/// attribute-list parse.
pub open spec fn hp_prepend_attrs(
    a: Seq<(Seq<char>, Seq<char>)>,
    r: Result<(Seq<(Seq<char>, Seq<char>)>, int), ()>,
) -> Result<(Seq<(Seq<char>, Seq<char>)>, int), ()> {
    match r {
        Ok(x) => Ok((a + x.0, x.1)),
        Err(e) => Err(e),
    }
}

/// Prepends already-parsed nodes to the rest of a sibling-run parse.
pub open spec fn hp_prepend_nodes(a: Seq<NodeV>, r: Result<(Seq<NodeV>, int), ()>) -> Result<
    (Seq<NodeV>, int),
    (),
> {
    match r {
        Ok(x) => Ok((a + x.0, x.1)),
        Err(e) => Err(e),
    }
}

/// A parser for markup text: a current position inside a vector of input
/// characters.
#[derive(Debug, PartialEq)]
pub struct HtmlParser {
    /// The current position of the parser.
    pub current_position: usize,
    /// The input being parsed.
    pub input: Vec<char>,
}

impl Parser for HtmlParser {
    open spec fn spec_input(&self) -> Seq<char> {
        self.input@
    }

    open spec fn spec_pos(&self) -> int {
        self.current_position as int
    }

    /// Returns the current position of the parser.
    fn current_position(&self) -> usize {
        self.current_position
    }

    /// Returns the input being parsed.
    fn input(&self) -> &Vec<char> {
        &self.input
    }

    /// Sets the current position of the parser.
    fn set_current_position(&mut self, position: usize) {
        self.current_position = position;
    }
}

impl HtmlParser {
    /// A parser over the characters of the given text, at its start.
    pub fn new(input: &str) -> (p: HtmlParser)
        ensures
            p.current_position == 0,
            p.input@ == input@,
    {
        HtmlParser { current_position: 0, input: crate::chars::chars_of(input) }
    }

    /// Parses a tag name: the longest run of ASCII letters and digits at
    /// the current position, possibly empty. Never fails.
    pub fn parse_tag_name(&mut self) -> (r: Result<String, &'static str>)
        ensures
            final(self).input@ == old(self).input@,
            ({
                let s = old(self).input@;
                let p = old(self).current_position as int;
                if p <= s.len() {
                    &&& final(self).current_position as int == scan_end(s, p, CharClass::TagName)
                    &&& (r matches Ok(out) && out@ == s.subrange(
                        p,
                        scan_end(s, p, CharClass::TagName),
                    ))
                } else {
                    &&& final(self).current_position as int == p
                    &&& (r matches Ok(out) && out@ == Seq::<char>::empty())
                }
            }),
    {
        self.consume_while(CharClass::TagName)
    }

    /// Parses the text content of a node: everything up to the next `<`
    /// or the end of the input.
    pub fn parse_text(&mut self) -> (r: Result<Node, &'static str>)
        ensures
            final(self).input@ == old(self).input@,
            ({
                let s = old(self).input@;
                let p = old(self).current_position as int;
                if p <= s.len() {
                    let e = scan_end(s, p, CharClass::NotChar('<'));
                    &&& final(self).current_position as int == e
                    &&& (r matches Ok(n) && n@.kind == NodeTypeV::Text(s.subrange(p, e))
                        && n@.children =~= Seq::<NodeV>::empty())
                } else {
                    &&& final(self).current_position as int == p
                    &&& (r matches Ok(n) && n@.kind == NodeTypeV::Text(Seq::empty())
                        && n@.children =~= Seq::<NodeV>::empty())
                }
            }),
    {
        let t = match self.consume_while(CharClass::NotChar('<')) {
            Ok(x) => x,
            Err(_) => {
                proof {
                    assert(false);
                }
                return Err("Failed to get next character");
            },
        };
        Ok(text(t))
    }

    /// Parses a quoted attribute value: an opening quote (any one
    /// character), the value up to the next occurrence of that character,
    /// and the closing quote.
    pub fn parse_attr_value(&mut self) -> (r: Result<String, &'static str>)
        ensures
            final(self).input@ == old(self).input@,
            ({
                let s = old(self).input@;
                let p = old(self).current_position as int;
                match hp_attr_value(s, p) {
                    Ok(v) => (r matches Ok(out) && out@ == v.0) && final(self).current_position as int == v.1,
                    Err(_) => r is Err,
                }
            }),
    {
        let open_quote = match self.consume_char() {
            Ok(c) => c,
            Err(e) => {
                return Err(e);
            },
        };
        let value = match self.consume_while(CharClass::NotChar(open_quote)) {
            Ok(x) => x,
            Err(_) => {
                proof {
                    assert(false);
                }
                return Err("Failed to get next character");
            },
        };
        match self.consume_char() {
            Ok(_) => {},
            Err(e) => {
                return Err(e);
            },
        }
        Ok(value)
    }

    /// Parses one attribute: a name, `=`, and a quoted value.
    pub fn parse_attribute(&mut self) -> (r: Result<(String, String), &'static str>)
        ensures
            final(self).input@ == old(self).input@,
            ({
                let s = old(self).input@;
                let p = old(self).current_position as int;
                match hp_attribute(s, p) {
                    Ok(a) => (r matches Ok(t) && t.0@ == a.0.0 && t.1@ == a.0.1) && final(self).current_position as int == a.1,
                    Err(_) => r is Err,
                }
            }),
    {
        let name = match self.parse_tag_name() {
            Ok(x) => x,
            Err(_) => {
                proof {
                    assert(false);
                }
                return Err("Failed to get next character");
            },
        };
        let _ = self.consume_whitespace();
        match self.consume_char() {
            Ok(_) => {},
            Err(e) => {
                return Err(e);
            },
        }
        let _ = self.consume_whitespace();
        let value = match self.parse_attr_value() {
            Ok(x) => x,
            Err(e) => {
                return Err(e);
            },
        };
        Ok((name, value))
    }

    /// Parses the attribute list of an opening tag, stopping before `>`
    /// or `/` or at the end of the input.
    #[verifier::loop_isolation(false)]
    pub fn parse_attributes(&mut self) -> (r: Result<AttrMap, &'static str>)
        ensures
            final(self).input@ == old(self).input@,
            ({
                let s = old(self).input@;
                let p = old(self).current_position as int;
                match hp_attributes(s, p) {
                    Ok(a) => (r matches Ok(m) && crate::dom::entry_views(m.entries@) == a.0 && m@
                        == entries_map(a.0)) && final(self).current_position as int == a.1,
                    Err(_) => r is Err,
                }
            }),
    {
        let ghost s = self.input@;
        let ghost p0 = self.current_position as int;
        let mut attributes = AttrMap::new();
        proof {
            assert(crate::dom::entry_views(attributes.entries@) =~= Seq::<
                (Seq<char>, Seq<char>),
            >::empty());
            match hp_attributes(s, p0) {
                Ok(x) => {
                    assert(Seq::<(Seq<char>, Seq<char>)>::empty() + x.0 =~= x.0);
                },
                Err(_) => {},
            }
        }
        loop
            invariant
                self.input@ == s,
                hp_attributes(s, p0) == hp_prepend_attrs(
                    crate::dom::entry_views(attributes.entries@),
                    hp_attributes(s, self.current_position as int),
                ),
            decreases s.len() - self.current_position,
        {
            let ghost cur = self.current_position as int;
            let _ = self.consume_whitespace();
            let p1 = self.current_position();
            if self.eof() {
                proof {
                    assert(crate::dom::entry_views(attributes.entries@) + Seq::<
                        (Seq<char>, Seq<char>),
                    >::empty() =~= crate::dom::entry_views(attributes.entries@));
                }
                return Ok(attributes);
            }
            let c = match self.next_char() {
                Ok(c) => c,
                Err(_) => {
                    proof {
                        assert(false);
                    }
                    return Err("Failed to get next character");
                },
            };
            if c == '>' || c == '/' {
                proof {
                    assert(crate::dom::entry_views(attributes.entries@) + Seq::<
                        (Seq<char>, Seq<char>),
                    >::empty() =~= crate::dom::entry_views(attributes.entries@));
                }
                return Ok(attributes);
            }
            let (name, value) = match self.parse_attribute() {
                Ok(x) => x,
                Err(e) => {
                    return Err(e);
                },
            };
            let ghost old_views = crate::dom::entry_views(attributes.entries@);
            let ghost nv = name@;
            let ghost vv = value@;
            let ghost aend = self.current_position as int;
            attributes.insert(name, value);
            proof {
                assert(crate::dom::entry_views(attributes.entries@) =~= old_views + seq![
                    (nv, vv),
                ]);
                match hp_attributes(s, aend) {
                    Ok(rest) => {
                        assert((old_views + seq![(nv, vv)]) + rest.0 =~= old_views + (seq![
                            (nv, vv),
                        ] + rest.0));
                    },
                    Err(_) => {},
                }
                lemma_scan_end(s, cur, CharClass::Space);
                lemma_hp_attribute_progress(s, p1 as int);
            }
        }
    }

    /// Parses an opening tag: `<`, the tag name, the attributes, `>`.
    pub fn parse_opening_tag(&mut self) -> (r: Result<(String, AttrMap), &'static str>)
        ensures
            final(self).input@ == old(self).input@,
            ({
                let s = old(self).input@;
                let p = old(self).current_position as int;
                match hp_opening(s, p) {
                    Ok(o) => (r matches Ok(t) && t.0@ == o.0.0 && crate::dom::entry_views(
                        t.1.entries@,
                    ) == o.0.1 && t.1@ == entries_map(o.0.1)) && final(self).current_position as int == o.1,
                    Err(_) => r is Err,
                }
            }),
    {
        match self.consume_char() {
            Ok(_) => {},
            Err(e) => {
                return Err(e);
            },
        }
        let tag_name = match self.parse_tag_name() {
            Ok(x) => x,
            Err(_) => {
                proof {
                    assert(false);
                }
                return Err("Failed to get next character");
            },
        };
        let attrs = match self.parse_attributes() {
            Ok(x) => x,
            Err(e) => {
                return Err(e);
            },
        };
        match self.consume_char() {
            Ok(_) => {},
            Err(e) => {
                return Err(e);
            },
        }
        Ok((tag_name, attrs))
    }

    /// Parses a closing tag: `<`, `/`, the tag name, `>`.
    pub fn parse_closing_tag(&mut self) -> (r: Result<String, &'static str>)
        ensures
            final(self).input@ == old(self).input@,
            ({
                let s = old(self).input@;
                let p = old(self).current_position as int;
                match hp_closing(s, p) {
                    Ok(c) => (r matches Ok(t) && t@ == c.0) && final(self).current_position as int == c.1,
                    Err(_) => r is Err,
                }
            }),
    {
        match self.consume_char() {
            Ok(_) => {},
            Err(e) => {
                return Err(e);
            },
        }
        match self.consume_char() {
            Ok(_) => {},
            Err(e) => {
                return Err(e);
            },
        }
        let tag_name = match self.parse_tag_name() {
            Ok(x) => x,
            Err(_) => {
                proof {
                    assert(false);
                }
                return Err("Failed to get next character");
            },
        };
        match self.consume_char() {
            Ok(_) => {},
            Err(e) => {
                return Err(e);
            },
        }
        Ok(tag_name)
    }

    /// Parses the next node: an element when `<` stands at the current
    /// position, otherwise a text run.
    pub fn parse_node(&mut self) -> (r: Result<Node, &'static str>)
        ensures
            final(self).input@ == old(self).input@,
            ({
                let s = old(self).input@;
                let p = old(self).current_position as int;
                match hp_node(s, p) {
                    Ok(n) => (r matches Ok(node) && node@ == n.0) && final(self).current_position as int == n.1,
                    Err(_) => r is Err,
                }
            }),
        decreases self.input@.len() - self.current_position, 1int,
    {
        match self.next_char() {
            Ok(c) => {
                if c == '<' {
                    self.parse_element()
                } else {
                    let r = self.parse_text();
                    proof {
                        match &r {
                            Ok(node) => {
                                assert(node@ =~= hp_node(
                                    old(self).input@,
                                    old(self).current_position as int,
                                )->Ok_0.0);
                            },
                            Err(_) => {},
                        }
                    }
                    r
                }
            },
            Err(_) => Err("Failed to get next character"),
        }
    }

    /// Parses an element: an opening tag, child nodes, and a matching
    /// closing tag; tag names are compared and stored lowercased.
    pub fn parse_element(&mut self) -> (r: Result<Node, &'static str>)
        ensures
            final(self).input@ == old(self).input@,
            ({
                let s = old(self).input@;
                let p = old(self).current_position as int;
                match hp_element(s, p) {
                    Ok(n) => (r matches Ok(node) && node@ == n.0) && final(self).current_position as int == n.1,
                    Err(_) => r is Err,
                }
            }),
            // When the opening tag, the children and the closing tag all
            // parse but the lowercased tag names differ, the failure is
            // exactly the mismatch error.
            ({
                let s = old(self).input@;
                let p = old(self).current_position as int;
                match hp_opening(s, p) {
                    Ok(o) => match hp_nodes(s, o.1) {
                        Ok(c) => match hp_closing(s, c.1) {
                            Ok(ct) => (p < o.1 <= s.len() && lower_seq(o.0.0) != lower_seq(ct.0))
                                ==> (r matches Err(m) && m@
                                == "Opening and closing tag names do not match"@),
                            Err(_) => true,
                        },
                        Err(_) => true,
                    },
                    Err(_) => true,
                }
            }),
        decreases self.input@.len() - self.current_position, 0int,
    {
        let ghost s = self.input@;
        let ghost p = self.current_position as int;
        let (tag_name_raw, attrs) = match self.parse_opening_tag() {
            Ok(x) => x,
            Err(e) => {
                return Err(e);
            },
        };
        let tag_name = lower_string(&tag_name_raw);
        proof {
            lemma_hp_opening_progress(s, p);
        }
        let children = match self.parse_nodes() {
            Ok(x) => x,
            Err(e) => {
                return Err(e);
            },
        };
        let closing_tag_raw = match self.parse_closing_tag() {
            Ok(x) => x,
            Err(e) => {
                return Err(e);
            },
        };
        let closing_tag = lower_string(&closing_tag_raw);
        if !crate::chars::str_eq(tag_name.as_str(), closing_tag.as_str()) {
            return Err("Opening and closing tag names do not match");
        }
        let node = elem(tag_name, attrs, children);
        proof {
            assert(node@ =~= hp_element(s, p)->Ok_0.0);
        }
        Ok(node)
    }

    /// Parses a run of sibling nodes, until the end of the input or a
    /// closing tag.
    #[verifier::loop_isolation(false)]
    pub fn parse_nodes(&mut self) -> (r: Result<Vec<Node>, &'static str>)
        ensures
            final(self).input@ == old(self).input@,
            ({
                let s = old(self).input@;
                let p = old(self).current_position as int;
                match hp_nodes(s, p) {
                    Ok(ns) => (r matches Ok(v) && nodes_view(v@) == ns.0) && final(self).current_position as int == ns.1,
                    Err(_) => r is Err,
                }
            }),
        decreases self.input@.len() - self.current_position, 2int,
    {
        let ghost s = self.input@;
        let ghost p0 = self.current_position as int;
        let mut nodes: Vec<Node> = Vec::new();
        proof {
            assert(nodes_view(nodes@) =~= Seq::<NodeV>::empty());
            match hp_nodes(s, p0) {
                Ok(x) => {
                    assert(Seq::<NodeV>::empty() + x.0 =~= x.0);
                },
                Err(_) => {},
            }
        }
        loop
            invariant
                self.input@ == s,
                p0 <= self.current_position as int,
                hp_nodes(s, p0) == hp_prepend_nodes(
                    nodes_view(nodes@),
                    hp_nodes(s, self.current_position as int),
                ),
            decreases s.len() - self.current_position,
        {
            let ghost cur = self.current_position as int;
            let _ = self.consume_whitespace();
            let p1 = self.current_position();
            if self.eof() {
                proof {
                    assert(nodes_view(nodes@) + Seq::<NodeV>::empty() =~= nodes_view(nodes@));
                }
                return Ok(nodes);
            }
            let at_closing = match self.starts_with(&['<', '/']) {
                Ok(b) => b,
                Err(_) => {
                    proof {
                        assert(false);
                    }
                    return Err("Failed to get next character");
                },
            };
            proof {
                assert(seq!['<', '/'] =~= (&['<', '/'])@);
            }
            if at_closing {
                proof {
                    assert(nodes_view(nodes@) + Seq::<NodeV>::empty() =~= nodes_view(nodes@));
                }
                return Ok(nodes);
            }
            proof {
                assert(cur <= s.len()) by {
                    if cur > s.len() {
                        assert(scan_end(s, cur, CharClass::Space) == cur);
                    }
                }
                lemma_scan_end(s, cur, CharClass::Space);
            }
            let node = match self.parse_node() {
                Ok(x) => x,
                Err(e) => {
                    return Err(e);
                },
            };
            let ghost old_nodes = nodes@;
            let ghost nend = self.current_position as int;
            nodes.push(node);
            proof {
                crate::dom::lemma_nodes_view_push(old_nodes, node);
                lemma_scan_end(s, cur, CharClass::Space);
                lemma_hp_progress(s, p1 as int);
                match hp_nodes(s, nend) {
                    Ok(rest) => {
                        assert((nodes_view(old_nodes) + seq![node@]) + rest.0 =~= nodes_view(
                            old_nodes,
                        ) + (seq![node@] + rest.0));
                    },
                    Err(_) => {},
                }
            }
        }
    }

    /// Parses a whole document. A single root node is returned as it is;
    /// several roots (or none) are wrapped in an `html` element.
    pub fn parse(source: String) -> (r: Result<Node, &'static str>)
        ensures
            ({
                let s = source@;
                match hp_nodes(s, 0) {
                    Ok(ns) => r matches Ok(n) && (if ns.0.len() == 1 {
                        n@ == ns.0[0]
                    } else {
                        n@.kind == NodeTypeV::Element(
                            ElemV { tag: "html"@, attrs: Map::empty() },
                        ) && n@.children == ns.0
                    }),
                    Err(_) => r is Err,
                }
            }),
    {
        let mut parser = HtmlParser::new(source.as_str());
        let mut nodes = match parser.parse_nodes() {
            Ok(x) => x,
            Err(e) => {
                return Err(e);
            },
        };
        if nodes.len() == 1 {
            let ghost old_nodes = nodes@;
            let n = nodes.remove(0);
            proof {
                crate::dom::lemma_nodes_view_len(old_nodes);
                crate::dom::lemma_nodes_view_index(old_nodes, 0);
            }
            Ok(n)
        } else {
            proof {
                match hp_nodes(source@, 0) {
                    Ok(ns) => {
                        crate::dom::lemma_nodes_view_len(nodes@);
                    },
                    Err(_) => {},
                }
            }
            Ok(elem(String::from_str("html"), AttrMap::new(), nodes))
        }
    }
}

/// A successful run parse stays in the input.
pub proof fn lemma_hp_progress_nodes(s: Seq<char>, p: int)
    requires
        0 <= p <= s.len(),
    ensures
        match hp_nodes(s, p) {
            Ok(ns) => p <= ns.1 <= s.len(),
            Err(_) => true,
        },
    decreases s.len() - p, 2int,
{
    lemma_scan_end(s, p, CharClass::Space);
    let p1 = scan_end(s, p, CharClass::Space);
    if 0 <= p1 && p1 < s.len() && !seq_starts_with(s, p1, seq!['<', '/']) {
        match hp_node(s, p1) {
            Ok(n) => {
                if p1 < n.1 && n.1 <= s.len() {
                    lemma_hp_progress_nodes(s, n.1);
                }
            },
            Err(_) => {},
        }
    }
}

} // verus!
