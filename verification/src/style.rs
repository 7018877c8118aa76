//! The cascade resolver: matches a style sheet's rules against the
//! elements of a document tree and produces an isomorphic tree of
//! resolved property maps, applying specificity order and source order.

use vstd::prelude::*;
use crate::chars::str_eq;
use crate::css::{
    sel_specificity, sel_views, spec_triple_lt, DeclV, Rule, RuleV, SelectorV, Selector,
    SimpleSelV, SimpleSelector, Specificity, specificity_lt, Stylesheet, Value, ValueV,
};
use crate::dom::{
    entries_map, lemma_entries_map_absent, lemma_entries_map_found, split_classes, ElemV,
    ElementData, Node, NodeType, NodeTypeV, NodeV, nodes_view,
};

verus! {

/// The resolved properties of one node: property names mapped to values.
/// Entries are kept in insertion order; a later entry for the same name
/// shadows an earlier one, so the map's view is the name-to-value mapping
/// with the last write winning.
#[derive(Debug)]
pub struct PropertyMap {
    pub entries: Vec<(String, Value)>,
}

/// The views of a sequence of property entries.
pub open spec fn prop_entry_views(s: Seq<(String, Value)>) -> Seq<(Seq<char>, ValueV)> {
    Seq::new(s.len(), |i: int| (s[i].0@, s[i].1@))
}

impl View for PropertyMap {
    type V = Map<Seq<char>, ValueV>;

    open spec fn view(&self) -> Map<Seq<char>, ValueV> {
        entries_map(prop_entry_views(self.entries@))
    }
}

impl PropertyMap {
    /// An empty property map.
    pub fn new() -> (m: PropertyMap)
        ensures
            m@ == Map::<Seq<char>, ValueV>::empty(),
    {
        PropertyMap { entries: Vec::new() }
    }

    /// Binds a property name to a value, shadowing any earlier binding of
    /// the same name.
    pub fn insert(&mut self, name: String, value: Value)
        ensures
            final(self)@ == old(self)@.insert(name@, value@),
    {
        let ghost old_entries = prop_entry_views(self.entries@);
        let ghost nv = name@;
        let ghost vv = value@;
        self.entries.push((name, value));
        proof {
            assert(prop_entry_views(self.entries@).drop_last() =~= old_entries);
            assert(prop_entry_views(self.entries@).last() == (nv, vv));
        }
    }

    /// Looks a property name up, returning the value of its last binding.
    pub fn get(&self, name: &str) -> (r: Option<&Value>)
        ensures
            match r {
                Some(v) => self@.contains_key(name@) && v@ == self@[name@],
                None => !self@.contains_key(name@),
            },
    {
        let n = self.entries.len();
        let mut i: usize = n;
        while i > 0
            invariant
                n == self.entries@.len(),
                i <= n,
                forall|j: int| i <= j < n ==> prop_entry_views(self.entries@)[j].0 != name@,
            decreases i,
        {
            i = i - 1;
            if str_eq(self.entries[i].0.as_str(), name) {
                proof {
                    lemma_entries_map_found(prop_entry_views(self.entries@), i as int, name@);
                }
                return Some(&self.entries[i].1);
            }
        }
        proof {
            lemma_entries_map_absent(prop_entry_views(self.entries@), name@);
        }
        None
    }
}

/// How a node is displayed.
#[derive(Clone, Copy, Debug, PartialEq, Eq, Structural)]
pub enum Display {
    /// The node is laid out inline: the universal default.
    Inline,
    /// The node forms a block.
    Block,
    /// The node is not displayed: the `none` display value.
    NoDisplay,
}

/// The class names of an element: its `class` attribute split at
/// whitespace, or nothing when the attribute is absent.
pub open spec fn elem_classes(e: ElemV) -> Seq<Seq<char>> {
    if e.attrs.contains_key("class"@) {
        split_classes(e.attrs["class"@])
    } else {
        Seq::empty()
    }
}

/// Whether a simple selector matches an element: the tag name must agree
/// where the selector names one, the id must agree where the selector
/// names one, and every selector class must be among the element's
/// classes. A selector with no components matches every element.
pub open spec fn sel_matches(e: ElemV, sel: SimpleSelV) -> bool {
    &&& (match sel.tag {
        Some(t) => e.tag == t,
        None => true,
    })
    &&& (match sel.id {
        Some(i) => e.attrs.contains_key("id"@) && e.attrs["id"@] == i,
        None => true,
    })
    &&& (forall|k: int| 0 <= k < sel.classes.len() ==> elem_classes(e).contains(sel.classes[k]))
}

/// Whether a selector matches an element.
pub open spec fn selector_matches(e: ElemV, s: SelectorV) -> bool {
    match s {
        SelectorV::Simple(ss) => sel_matches(e, ss),
    }
}

/// The first selector in the list that matches the element, if any.
pub open spec fn first_match(e: ElemV, sels: Seq<SelectorV>) -> Option<SelectorV>
    decreases sels.len(),
{
    if sels.len() == 0 {
        Option::None
    } else if selector_matches(e, sels[0]) {
        Option::Some(sels[0])
    } else {
        first_match(e, sels.drop_first())
    }
}

/// Selector matching for a single simple selector.
pub fn matches_simple_selector(elem: &ElementData, selector: &SimpleSelector) -> (r: bool)
    ensures
        r == sel_matches(elem@, selector@),
{
    match &selector.tag_name {
        Some(t) => {
            if !str_eq(t.as_str(), elem.tag_name.as_str()) {
                return false;
            }
        },
        None => {},
    }
    match &selector.id {
        Some(id_sel) => {
            match elem.id() {
                Some(id_attr) => {
                    if !str_eq(id_sel.as_str(), id_attr.as_str()) {
                        return false;
                    }
                },
                None => {
                    return false;
                },
            }
        },
        None => {},
    }
    let elem_classes_vec = elem.classes();
    let ghost ecs = elem_classes(elem@);
    proof {
        assert(crate::chars::str_views(elem_classes_vec@) =~= ecs);
    }
    let ncl = selector.class.len();
    let mut ci: usize = 0;
    while ci < ncl
        invariant
            ncl == selector.class@.len(),
            ci <= ncl,
            crate::chars::str_views(elem_classes_vec@) == ecs,
            ecs == elem_classes(elem@),
            forall|k: int| 0 <= k < ci ==> ecs.contains(selector@.classes[k]),
        decreases ncl - ci,
    {
        let cls = &selector.class[ci];
        let mut found = false;
        let mut ej: usize = 0;
        while !found && ej < elem_classes_vec.len()
            invariant
                crate::chars::str_views(elem_classes_vec@) == ecs,
                ej <= elem_classes_vec@.len(),
                found ==> ecs.contains(cls@),
                !found ==> forall|q: int| 0 <= q < ej ==> ecs[q] != cls@,
            decreases elem_classes_vec@.len() - ej + (if found {
                0int
            } else {
                1int
            }),
        {
            if str_eq(elem_classes_vec[ej].as_str(), cls.as_str()) {
                found = true;
                proof {
                    assert(ecs[ej as int] == cls@);
                }
            } else {
                ej = ej + 1;
            }
        }
        if !found {
            proof {
                assert(!ecs.contains(selector@.classes[ci as int])) by {
                    if ecs.contains(selector@.classes[ci as int]) {
                        let w = choose|w: int|
                            0 <= w < ecs.len() && ecs[w] == selector@.classes[ci as int];
                        assert(ecs[w] != cls@);
                    }
                }
            }
            return false;
        }
        ci = ci + 1;
    }
    true
}

/// Whether a selector matches an element.
pub fn matches(elem: &ElementData, selector: &Selector) -> (r: bool)
    ensures
        r == selector_matches(elem@, selector@),
{
    match selector {
        Selector::Simple(simple_selector) => matches_simple_selector(elem, simple_selector),
    }
}

/// A rule matched against an element: the specificity of the first
/// (highest-ranking) matching selector, and the rule.
pub type MatchedRule<'a> = (Specificity, &'a Rule);

/// The view of a matched rule.
pub open spec fn mr_view(m: (Specificity, &Rule)) -> ((int, int, int), RuleV) {
    ((m.0.0 as int, m.0.1 as int, m.0.2 as int), (*m.1)@)
}

/// The views of a sequence of matched rules.
pub open spec fn mr_views(s: Seq<(Specificity, &Rule)>) -> Seq<((int, int, int), RuleV)> {
    Seq::new(s.len(), |i: int| mr_view(s[i]))
}

/// What matching one rule against an element yields: the specificity of
/// the first matching selector together with the rule, or nothing.
pub open spec fn sp_match_rule(e: ElemV, r: RuleV) -> Option<((int, int, int), RuleV)> {
    match first_match(e, r.selectors) {
        Option::Some(sel) => Option::Some((sel_specificity(sel), r)),
        Option::None => Option::None,
    }
}

/// The rules of a style sheet that match an element, in style-sheet
/// order, each with its effective specificity.
pub open spec fn sp_matching_rules(e: ElemV, rules: Seq<RuleV>) -> Seq<((int, int, int), RuleV)>
    decreases rules.len(),
{
    if rules.len() == 0 {
        Seq::empty()
    } else {
        let rest = sp_matching_rules(e, rules.drop_first());
        match sp_match_rule(e, rules[0]) {
            Option::Some(m) => seq![m] + rest,
            Option::None => rest,
        }
    }
}

/// Inserts a matched rule into an ascending-specificity sequence, after
/// every entry of smaller or equal specificity (so equal specificities
/// keep their style-sheet order).
pub open spec fn insert_asc(
    sorted: Seq<((int, int, int), RuleV)>,
    x: ((int, int, int), RuleV),
) -> Seq<((int, int, int), RuleV)>
    decreases sorted.len(),
{
    if sorted.len() == 0 {
        seq![x]
    } else if spec_triple_lt(x.0, sorted[0].0) {
        seq![x] + sorted
    } else {
        seq![sorted[0]] + insert_asc(sorted.drop_first(), x)
    }
}

/// The stable sort of matched rules by ascending specificity: the order
/// in which the cascade applies them.
pub open spec fn sort_asc(s: Seq<((int, int, int), RuleV)>) -> Seq<((int, int, int), RuleV)>
    decreases s.len(),
{
    if s.len() == 0 {
        Seq::empty()
    } else {
        insert_asc(sort_asc(s.drop_last()), s.last())
    }
}

/// Applies declarations to a property mapping in order, later
/// declarations of a name overwriting earlier ones.
pub open spec fn apply_decls(m: Map<Seq<char>, ValueV>, ds: Seq<DeclV>) -> Map<Seq<char>, ValueV>
    decreases ds.len(),
{
    if ds.len() == 0 {
        m
    } else {
        apply_decls(m.insert(ds[0].name, ds[0].value), ds.drop_first())
    }
}

/// Applies the declarations of a sequence of matched rules in order.
pub open spec fn apply_rules(
    m: Map<Seq<char>, ValueV>,
    ms: Seq<((int, int, int), RuleV)>,
) -> Map<Seq<char>, ValueV>
    decreases ms.len(),
{
    if ms.len() == 0 {
        m
    } else {
        apply_rules(apply_decls(m, ms[0].1.declarations), ms.drop_first())
    }
}

/// The resolved properties of an element under a style sheet: every
/// matching rule's declarations merged in ascending specificity order,
/// style-sheet order breaking ties, later declarations winning.
pub open spec fn sp_specified_values(e: ElemV, rules: Seq<RuleV>) -> Map<Seq<char>, ValueV> {
    apply_rules(Map::empty(), sort_asc(sp_matching_rules(e, rules)))
}

/// If `elem` matches a selector of `rule`, the matched rule; the
/// specificity reported is that of the first matching selector in the
/// rule's (descending-specificity) selector list.
pub fn match_rule<'a>(elem: &ElementData, rule: &'a Rule) -> (r: Option<MatchedRule<'a>>)
    ensures
        match r {
            Some(m) => sp_match_rule(elem@, rule@) == Option::Some(mr_view(m)) && m.1 == rule,
            None => sp_match_rule(elem@, rule@) is None,
        },
{
    let ghost sels = sel_views(rule.selectors@);
    let n = rule.selectors.len();
    let mut i: usize = 0;
    proof {
        assert(sels.skip(0) =~= sels);
    }
    while i < n
        invariant
            n == rule.selectors@.len(),
            i <= n,
            first_match(elem@, sels) == first_match(elem@, sels.skip(i as int)),
            sels == sel_views(rule.selectors@),
        decreases n - i,
    {
        if matches(elem, &rule.selectors[i]) {
            proof {
                assert(sels.skip(i as int)[0] == sels[i as int]);
                assert(first_match(elem@, sels.skip(i as int)) == Option::Some(sels[i as int]));
            }
            let spec3 = rule.selectors[i].specificity();
            return Some((spec3, rule));
        }
        proof {
            assert(sels.skip(i as int)[0] == sels[i as int]);
            assert(sels.skip(i as int).drop_first() =~= sels.skip(i + 1));
        }
        i = i + 1;
    }
    proof {
        assert(sels.skip(n as int) =~= Seq::<SelectorV>::empty());
    }
    None
}

/// Finds all rules of the style sheet that match the element, in
/// style-sheet order.
pub fn matching_rules<'a>(elem: &ElementData, stylesheet: &'a Stylesheet) -> (r: Vec<
    MatchedRule<'a>,
>)
    ensures
        mr_views(r@) == sp_matching_rules(elem@, stylesheet@),
{
    let ghost rv = stylesheet@;
    let mut out: Vec<MatchedRule<'a>> = Vec::new();
    let n = stylesheet.rules.len();
    let mut i: usize = 0;
    proof {
        assert(mr_views(out@) =~= Seq::<((int, int, int), RuleV)>::empty());
        assert(rv.skip(0) =~= rv);
        assert(Seq::<((int, int, int), RuleV)>::empty() + sp_matching_rules(elem@, rv)
            =~= sp_matching_rules(elem@, rv));
    }
    while i < n
        invariant
            n == stylesheet.rules@.len(),
            i <= n,
            rv == stylesheet@,
            sp_matching_rules(elem@, rv) == mr_views(out@) + sp_matching_rules(
                elem@,
                rv.skip(i as int),
            ),
        decreases n - i,
    {
        let ghost old_views = mr_views(out@);
        proof {
            assert(rv.skip(i as int)[0] == rv[i as int]);
            assert(rv.skip(i as int).drop_first() =~= rv.skip(i + 1));
        }
        match match_rule(elem, &stylesheet.rules[i]) {
            Some(m) => {
                out.push(m);
                proof {
                    assert(mr_views(out@) =~= old_views + seq![mr_view(m)]);
                    assert(old_views + (seq![mr_view(m)] + sp_matching_rules(
                        elem@,
                        rv.skip(i + 1),
                    )) =~= mr_views(out@) + sp_matching_rules(elem@, rv.skip(i + 1)));
                }
            },
            None => {},
        }
        i = i + 1;
    }
    proof {
        assert(rv.skip(n as int) =~= Seq::<RuleV>::empty());
        assert(mr_views(out@) + Seq::<((int, int, int), RuleV)>::empty() =~= mr_views(out@));
    }
    out
}

/// Where an ascending insertion lands: before the first strictly-greater
/// entry.
proof fn lemma_insert_asc_at(s: Seq<((int, int, int), RuleV)>, x: ((int, int, int), RuleV), j: int)
    requires
        0 <= j <= s.len(),
        forall|k: int| 0 <= k < j ==> !spec_triple_lt(x.0, s[k].0),
        j < s.len() ==> spec_triple_lt(x.0, s[j].0),
    ensures
        insert_asc(s, x) =~= s.take(j) + seq![x] + s.skip(j),
    decreases s.len(),
{
    if s.len() == 0 {
    } else if j == 0 {
        if !spec_triple_lt(x.0, s[0].0) {
            assert(j < s.len() && !spec_triple_lt(x.0, s[j].0));
        }
    } else {
        assert(!spec_triple_lt(x.0, s[0].0));
        assert forall|k: int| 0 <= k < j - 1 implies !spec_triple_lt(
            x.0,
            s.drop_first()[k].0,
        ) by {
            assert(s.drop_first()[k] == s[k + 1]);
        }
        if j - 1 < s.drop_first().len() {
            assert(s.drop_first()[j - 1] == s[j]);
        }
        lemma_insert_asc_at(s.drop_first(), x, j - 1);
    }
}

/// Sorts matched rules by ascending specificity, stably.
fn sort_matched<'a>(v: Vec<MatchedRule<'a>>) -> (r: Vec<MatchedRule<'a>>)
    ensures
        mr_views(r@) == sort_asc(mr_views(v@)),
{
    let mut out: Vec<MatchedRule<'a>> = Vec::new();
    let mut i: usize = 0;
    proof {
        assert(mr_views(v@.take(0)) =~= Seq::<((int, int, int), RuleV)>::empty());
        assert(mr_views(out@) =~= sort_asc(mr_views(v@.take(0))));
    }
    while i < v.len()
        invariant
            i <= v@.len(),
            mr_views(out@) == sort_asc(mr_views(v@.take(i as int))),
        decreases v@.len() - i,
    {
        let x = v[i];
        let mut j: usize = 0;
        while j < out.len()
            invariant
                j <= out@.len(),
                i < v@.len(),
                x == v@[i as int],
                forall|k: int|
                    0 <= k < j ==> !spec_triple_lt(
                        mr_view(v@[i as int]).0,
                        mr_views(out@)[k].0,
                    ),
            ensures
                j <= out@.len(),
                forall|k: int|
                    0 <= k < j ==> !spec_triple_lt(
                        mr_view(v@[i as int]).0,
                        mr_views(out@)[k].0,
                    ),
                j < out@.len() ==> spec_triple_lt(
                    mr_view(v@[i as int]).0,
                    mr_views(out@)[j as int].0,
                ),
            decreases out@.len() - j,
        {
            let y = out[j];
            if specificity_lt(&x.0, &y.0) {
                break;
            }
            j = j + 1;
        }
        let ghost old_out = out@;
        let ghost xv = mr_view(v@[i as int]);
        out.insert(j, x);
        i = i + 1;
        proof {
            lemma_insert_asc_at(mr_views(old_out), xv, j as int);
            assert(mr_views(out@) =~= mr_views(old_out).take(j as int) + seq![xv] + mr_views(
                old_out,
            ).skip(j as int));
            assert(mr_views(v@.take(i as int)).drop_last() =~= mr_views(v@.take(i - 1)));
            assert(mr_views(v@.take(i as int)).last() == xv);
            assert(sort_asc(mr_views(v@.take(i as int))) == insert_asc(
                sort_asc(mr_views(v@.take(i - 1))),
                xv,
            ));
        }
    }
    proof {
        assert(v@.take(v@.len() as int) =~= v@);
        assert(mr_views(v@.take(v@.len() as int)) =~= mr_views(v@));
    }
    out
}

/// Resolves the properties of one element: matches every rule, orders the
/// matches by ascending specificity (style-sheet order breaking ties) and
/// merges their declarations, later writes overwriting earlier ones.
pub fn specified_values(elem: &ElementData, stylesheet: &Stylesheet) -> (r: PropertyMap)
    ensures
        r@ == sp_specified_values(elem@, stylesheet@),
{
    let mut values = PropertyMap::new();
    let rules = matching_rules(elem, stylesheet);
    let sorted = sort_matched(rules);
    let ghost sv = mr_views(sorted@);
    let n = sorted.len();
    let mut i: usize = 0;
    proof {
        assert(sv.skip(0) =~= sv);
    }
    while i < n
        invariant
            n == sorted@.len(),
            i <= n,
            sv == mr_views(sorted@),
            apply_rules(Map::<Seq<char>, ValueV>::empty(), sv) == apply_rules(
                values@,
                sv.skip(i as int),
            ),
        decreases n - i,
    {
        let rule_ref = sorted[i].1;
        let ghost m0 = values@;
        let ghost ds = sv[i as int].1.declarations;
        proof {
            assert(sv.skip(i as int)[0] == sv[i as int]);
            assert(sv.skip(i as int).drop_first() =~= sv.skip(i + 1));
        }
        let dn = rule_ref.declarations.len();
        let mut j: usize = 0;
        proof {
            assert(ds =~= decl_views_of(rule_ref));
            assert(ds.skip(0) =~= ds);
        }
        while j < dn
            invariant
                dn == rule_ref.declarations@.len(),
                j <= dn,
                ds == decl_views_of(rule_ref),
                apply_decls(m0, ds) == apply_decls(values@, ds.skip(j as int)),
            decreases dn - j,
        {
            let name = rule_ref.declarations[j].name.clone();
            let value = rule_ref.declarations[j].value.clone();
            proof {
                assert(ds.skip(j as int)[0] == ds[j as int]);
                assert(ds.skip(j as int).drop_first() =~= ds.skip(j + 1));
            }
            values.insert(name, value);
            j = j + 1;
        }
        proof {
            assert(ds.skip(dn as int) =~= Seq::<DeclV>::empty());
        }
        i = i + 1;
    }
    proof {
        assert(sv.skip(n as int) =~= Seq::<((int, int, int), RuleV)>::empty());
    }
    values
}

/// The declaration views of a rule.
pub open spec fn decl_views_of(r: &Rule) -> Seq<DeclV> {
    (*r)@.declarations
}

/// The view of a resolved style node: the source node, its resolved
/// property mapping, and the resolved children.
#[verifier::ext_equal]
pub struct StyledV {
    pub node: NodeV,
    pub props: Map<Seq<char>, ValueV>,
    pub children: Seq<StyledV>,
}

/// A node of the resolved style tree: a reference to its source document
/// node, the properties resolved for it, and its resolved children, which
/// mirror the source node's children one for one.
pub struct StyledNode<'a> {
    /// The document node being styled.
    pub node: &'a Node,
    /// The values resolved for the node's properties.
    pub specified_values: PropertyMap,
    /// The styled children of the node.
    pub children: Vec<StyledNode<'a>>,
}

impl<'a> View for StyledNode<'a> {
    type V = StyledV;

    open spec fn view(&self) -> StyledV
        decreases self,
    {
        StyledV {
            node: (*self.node)@,
            props: self.specified_values@,
            children: styled_views(self.children@),
        }
    }
}

/// The views of a sequence of styled nodes, in order.
pub open spec fn styled_views<'a>(s: Seq<StyledNode<'a>>) -> Seq<StyledV>
    decreases s,
{
    if s.len() == 0 {
        Seq::empty()
    } else {
        seq![s[0]@] + styled_views(s.drop_first())
    }
}

/// The properties resolved for a node of the given type: matching is done
/// for elements; text and comment nodes get no properties.
pub open spec fn sp_style_map(kind: NodeTypeV, rules: Seq<RuleV>) -> Map<Seq<char>, ValueV> {
    match kind {
        NodeTypeV::Element(e) => sp_specified_values(e, rules),
        NodeTypeV::Text(_) => Map::empty(),
        NodeTypeV::Comment(_) => Map::empty(),
    }
}

/// The resolved style tree of a document node: its own resolved
/// properties and the resolved trees of its children, in order.
pub open spec fn sp_style_tree(n: NodeV, rules: Seq<RuleV>) -> StyledV
    decreases n,
{
    StyledV {
        node: n,
        props: sp_style_map(n.kind, rules),
        children: sp_style_children(n.children, rules),
    }
}

/// The resolved style trees of a sequence of document nodes.
pub open spec fn sp_style_children(cs: Seq<NodeV>, rules: Seq<RuleV>) -> Seq<StyledV>
    decreases cs,
{
    if cs.len() == 0 {
        Seq::empty()
    } else {
        seq![sp_style_tree(cs[0], rules)] + sp_style_children(cs.drop_first(), rules)
    }
}

/// Resolves the whole document tree against a style sheet, producing the
/// isomorphic tree of resolved style nodes.
pub fn style_tree<'a>(root: &'a Node, stylesheet: &'a Stylesheet) -> (r: StyledNode<'a>)
    ensures
        r.node == root,
        r@ == sp_style_tree(root@, stylesheet@),
    decreases *root,
{
    broadcast use {crate::dom::lemma_nodes_view_len, crate::dom::lemma_nodes_view_index};

    let specified = match &root.node_type {
        NodeType::Element(elem_data) => specified_values(elem_data, stylesheet),
        NodeType::Text(_) => PropertyMap::new(),
        NodeType::Comment(_) => PropertyMap::new(),
    };
    let ghost cs = root@.children;
    let mut children: Vec<StyledNode<'a>> = Vec::new();
    let n = root.children.len();
    let mut i: usize = 0;
    proof {
        assert(styled_views(children@) =~= Seq::<StyledV>::empty());
        assert(cs.skip(0) =~= cs);
        crate::dom::lemma_nodes_view_len(root.children@);
        assert(cs == nodes_view(root.children@));
        assert(cs.len() == n);
        assert(Seq::<StyledV>::empty() + sp_style_children(cs, stylesheet@) =~= sp_style_children(
            cs,
            stylesheet@,
        ));
    }
    while i < n
        invariant
            n == root.children@.len(),
            i <= n,
            cs == root@.children,
            cs.len() == n,
            sp_style_children(cs, stylesheet@) == styled_views(children@) + sp_style_children(
                cs.skip(i as int),
                stylesheet@,
            ),
        decreases n - i,
    {
        proof {
            assert(decreases_to!(*root => root.children));
            assert(decreases_to!(root.children => root.children@));
            assert(decreases_to!(root.children@ => root.children@[i as int]));
        }
        let styled_child = style_tree(&root.children[i], stylesheet);
        let ghost old_children = children@;
        let ghost old_views = styled_views(children@);
        children.push(styled_child);
        proof {
            assert(cs.skip(i as int)[0] == cs[i as int]);
            crate::dom::lemma_nodes_view_index(root.children@, i as int);
            assert(cs[i as int] == root.children@[i as int]@);
            assert(cs.skip(i as int).drop_first() =~= cs.skip(i + 1));
            assert(children@.subrange(0, children@.len() - 1) =~= old_children);
            assert(children@.drop_last() =~= children@.subrange(0, children@.len() - 1));
            lemma_styled_views_push(children@, old_views, styled_child);
            assert(old_views + (seq![styled_child@] + sp_style_children(
                cs.skip(i + 1),
                stylesheet@,
            )) =~= styled_views(children@) + sp_style_children(cs.skip(i + 1), stylesheet@));
        }
        i = i + 1;
    }
    proof {
        assert(cs.skip(n as int) =~= Seq::<NodeV>::empty());
        assert(styled_views(children@) + Seq::<StyledV>::empty() =~= styled_views(children@));
    }
    let r = StyledNode { node: root, specified_values: specified, children };
    proof {
        assert(r@ =~= sp_style_tree(root@, stylesheet@));
    }
    r
}

/// The value of the last declaration of `name` in a declaration list, if
/// any declares it.
pub open spec fn decl_last_value(ds: Seq<DeclV>, name: Seq<char>) -> Option<ValueV>
    decreases ds.len(),
{
    if ds.len() == 0 {
        Option::None
    } else {
        match decl_last_value(ds.drop_first(), name) {
            Option::Some(v) => Option::Some(v),
            Option::None => if ds[0].name == name {
                Option::Some(ds[0].value)
            } else {
                Option::None
            },
        }
    }
}

/// The value of the last declaration of `name` in the last matched rule
/// that declares it, if any does.
pub open spec fn rules_last_value(
    ms: Seq<((int, int, int), RuleV)>,
    name: Seq<char>,
) -> Option<ValueV>
    decreases ms.len(),
{
    if ms.len() == 0 {
        Option::None
    } else {
        match rules_last_value(ms.drop_first(), name) {
            Option::Some(v) => Option::Some(v),
            Option::None => decl_last_value(ms[0].1.declarations, name),
        }
    }
}

/// Applying a declaration list resolves each name to its last declared
/// value, leaving undeclared names as they were.
pub proof fn lemma_apply_decls_value(m: Map<Seq<char>, ValueV>, ds: Seq<DeclV>, name: Seq<char>)
    ensures
        ({
            let r = apply_decls(m, ds);
            match decl_last_value(ds, name) {
                Option::Some(v) => r.contains_key(name) && r[name] == v,
                Option::None => r.contains_key(name) == m.contains_key(name) && (m.contains_key(
                    name,
                ) ==> r[name] == m[name]),
            }
        }),
    decreases ds.len(),
{
    if ds.len() > 0 {
        lemma_apply_decls_value(m.insert(ds[0].name, ds[0].value), ds.drop_first(), name);
    }
}

/// Applying matched rules in order resolves each name to the value of its
/// last declaration in the last rule declaring it.
pub proof fn lemma_apply_rules_value(
    m: Map<Seq<char>, ValueV>,
    ms: Seq<((int, int, int), RuleV)>,
    name: Seq<char>,
)
    ensures
        ({
            let r = apply_rules(m, ms);
            match rules_last_value(ms, name) {
                Option::Some(v) => r.contains_key(name) && r[name] == v,
                Option::None => r.contains_key(name) == m.contains_key(name) && (m.contains_key(
                    name,
                ) ==> r[name] == m[name]),
            }
        }),
    decreases ms.len(),
{
    if ms.len() > 0 {
        lemma_apply_decls_value(m, ms[0].1.declarations, name);
        lemma_apply_rules_value(apply_decls(m, ms[0].1.declarations), ms.drop_first(), name);
    }
}

/// What the cascade resolves a property to, exactly: the value of its
/// last declaration in the last rule that declares it, in cascade order
/// (ascending specificity, style-sheet order breaking ties); and no
/// property appears unless some matching rule declared it.
pub proof fn lemma_specified_value(e: ElemV, rules: Seq<RuleV>, name: Seq<char>)
    ensures
        ({
            let r = sp_specified_values(e, rules);
            match rules_last_value(sort_asc(sp_matching_rules(e, rules)), name) {
                Option::Some(v) => r.contains_key(name) && r[name] == v,
                Option::None => !r.contains_key(name),
            }
        }),
{
    lemma_apply_rules_value(
        Map::<Seq<char>, ValueV>::empty(),
        sort_asc(sp_matching_rules(e, rules)),
        name,
    );
}

/// Ascending cascade order: no matched rule has strictly greater
/// specificity than a later one.
pub open spec fn asc_sorted(s: Seq<((int, int, int), RuleV)>) -> bool {
    forall|i: int, j: int| 0 <= i < j < s.len() ==> !spec_triple_lt(s[j].0, s[i].0)
}

/// Inserting into an ascending sequence keeps it ascending.
proof fn lemma_insert_asc_sorted(s: Seq<((int, int, int), RuleV)>, x: ((int, int, int), RuleV))
    requires
        asc_sorted(s),
    ensures
        asc_sorted(insert_asc(s, x)),
        insert_asc(s, x).len() == s.len() + 1,
    decreases s.len(),
{
    if s.len() == 0 {
    } else if spec_triple_lt(x.0, s[0].0) {
        let r = insert_asc(s, x);
        assert forall|i: int, j: int| 0 <= i < j < r.len() implies !spec_triple_lt(
            r[j].0,
            r[i].0,
        ) by {
            if i == 0 {
                assert(r[j] == s[j - 1]);
                if j > 1 {
                    assert(!spec_triple_lt(s[j - 1].0, s[0].0));
                }
            } else {
                assert(r[i] == s[i - 1]);
                assert(r[j] == s[j - 1]);
            }
        }
    } else {
        assert(asc_sorted(s.drop_first())) by {
            assert forall|i: int, j: int|
                0 <= i < j < s.drop_first().len() implies !spec_triple_lt(
                s.drop_first()[j].0,
                s.drop_first()[i].0,
            ) by {
                assert(s.drop_first()[i] == s[i + 1]);
                assert(s.drop_first()[j] == s[j + 1]);
            }
        }
        lemma_insert_asc_sorted(s.drop_first(), x);
        let r = insert_asc(s, x);
        let t = insert_asc(s.drop_first(), x);
        assert forall|i: int, j: int| 0 <= i < j < r.len() implies !spec_triple_lt(
            r[j].0,
            r[i].0,
        ) by {
            if i == 0 {
                assert(r[j] == t[j - 1]);
                lemma_insert_asc_floor(s.drop_first(), x, j - 1, s[0].0);
            } else {
                assert(r[i] == t[i - 1]);
                assert(r[j] == t[j - 1]);
            }
        }
    }
}

/// Inserting above a lower bound keeps every element above it.
proof fn lemma_insert_asc_floor(
    s: Seq<((int, int, int), RuleV)>,
    x: ((int, int, int), RuleV),
    j: int,
    bound: (int, int, int),
)
    requires
        0 <= j < insert_asc(s, x).len(),
        !spec_triple_lt(x.0, bound),
        forall|k: int| 0 <= k < s.len() ==> !spec_triple_lt(s[k].0, bound),
    ensures
        !spec_triple_lt(insert_asc(s, x)[j].0, bound),
    decreases s.len(),
{
    if s.len() == 0 {
    } else if spec_triple_lt(x.0, s[0].0) {
    } else {
        if j > 0 {
            assert(forall|k: int|
                0 <= k < s.drop_first().len() ==> !spec_triple_lt(
                    s.drop_first()[k].0,
                    bound,
                )) by {
                assert forall|k: int| 0 <= k < s.drop_first().len() implies !spec_triple_lt(
                    s.drop_first()[k].0,
                    bound,
                ) by {
                    assert(s.drop_first()[k] == s[k + 1]);
                }
            }
            lemma_insert_asc_floor(s.drop_first(), x, j - 1, bound);
        }
    }
}

/// The cascade order is ascending in specificity.
pub proof fn lemma_sort_asc_sorted(s: Seq<((int, int, int), RuleV)>)
    ensures
        asc_sorted(sort_asc(s)),
        sort_asc(s).len() == s.len(),
    decreases s.len(),
{
    if s.len() > 0 {
        lemma_sort_asc_sorted(s.drop_last());
        lemma_insert_asc_sorted(sort_asc(s.drop_last()), s.last());
    }
}

/// A matched rule whose effective selector has an id component always
/// stands later in the cascade order than every matched rule whose
/// effective selector has none, whatever their style-sheet order; by
/// [`lemma_specified_value`], its declarations therefore override theirs.
pub proof fn lemma_id_rule_outranks(e: ElemV, rules: Seq<RuleV>, i: int, j: int)
    requires
        0 <= i < sort_asc(sp_matching_rules(e, rules)).len(),
        0 <= j < sort_asc(sp_matching_rules(e, rules)).len(),
        sort_asc(sp_matching_rules(e, rules))[i].0.0 >= 1,
        sort_asc(sp_matching_rules(e, rules))[j].0.0 == 0,
    ensures
        j < i,
{
    lemma_sort_asc_sorted(sp_matching_rules(e, rules));
    let sorted = sort_asc(sp_matching_rules(e, rules));
    if i < j {
        assert(spec_triple_lt(sorted[j].0, sorted[i].0));
    }
}

/// The matched rules of one specificity, in order.
pub open spec fn matches_of_rank(
    s: Seq<((int, int, int), RuleV)>,
    k: (int, int, int),
) -> Seq<((int, int, int), RuleV)>
    decreases s.len(),
{
    if s.len() == 0 {
        Seq::empty()
    } else {
        (if s[0].0 == k {
            seq![s[0]]
        } else {
            Seq::empty()
        }) + matches_of_rank(s.drop_first(), k)
    }
}

/// The one-rank subsequence of a sequence with its last element split
/// off.
proof fn lemma_matches_of_rank_snoc(s: Seq<((int, int, int), RuleV)>, k: (int, int, int))
    requires
        s.len() > 0,
    ensures
        matches_of_rank(s, k) =~= matches_of_rank(s.drop_last(), k) + (if s.last().0 == k {
            seq![s.last()]
        } else {
            Seq::empty()
        }),
    decreases s.len(),
{
    if s.len() == 1 {
        assert(s.drop_last() =~= Seq::<((int, int, int), RuleV)>::empty());
        assert(s.drop_first() =~= Seq::<((int, int, int), RuleV)>::empty());
    } else {
        lemma_matches_of_rank_snoc(s.drop_first(), k);
        assert(s.drop_first().drop_last() =~= s.drop_last().drop_first());
        assert(s.drop_first().last() == s.last());
        assert(s.drop_last()[0] == s[0]);
    }
}

/// Inserting into an ascending sequence appends to its own rank's
/// subsequence and leaves every other rank's subsequence unchanged.
proof fn lemma_insert_asc_rank(
    s: Seq<((int, int, int), RuleV)>,
    x: ((int, int, int), RuleV),
    k: (int, int, int),
)
    requires
        asc_sorted(s),
    ensures
        matches_of_rank(insert_asc(s, x), k) =~= matches_of_rank(s, k) + (if x.0 == k {
            seq![x]
        } else {
            Seq::empty()
        }),
    decreases s.len(),
{
    if s.len() == 0 {
        let r = insert_asc(s, x);
        assert(r =~= seq![x]);
        assert(r.drop_first() =~= Seq::<((int, int, int), RuleV)>::empty());
        assert(r[0] == x);
        assert(matches_of_rank(Seq::<((int, int, int), RuleV)>::empty(), k) =~= Seq::<
            ((int, int, int), RuleV),
        >::empty());
        assert(matches_of_rank(r, k) == (if r[0].0 == k {
            seq![r[0]]
        } else {
            Seq::<((int, int, int), RuleV)>::empty()
        }) + matches_of_rank(r.drop_first(), k));
    } else if spec_triple_lt(x.0, s[0].0) {
        let r = insert_asc(s, x);
        assert(r =~= seq![x] + s);
        assert(r.drop_first() =~= s);
        assert(r[0] == x);
        if x.0 == k {
            lemma_rank_absent_when_above(s, k);
            assert(matches_of_rank(s, k) =~= Seq::<((int, int, int), RuleV)>::empty());
        }
    } else {
        assert(asc_sorted(s.drop_first())) by {
            assert forall|i: int, j: int|
                0 <= i < j < s.drop_first().len() implies !spec_triple_lt(
                s.drop_first()[j].0,
                s.drop_first()[i].0,
            ) by {
                assert(s.drop_first()[i] == s[i + 1]);
                assert(s.drop_first()[j] == s[j + 1]);
            }
        }
        lemma_insert_asc_rank(s.drop_first(), x, k);
        let r = insert_asc(s, x);
        assert(r =~= seq![s[0]] + insert_asc(s.drop_first(), x));
        assert(r.drop_first() =~= insert_asc(s.drop_first(), x));
        assert(r[0] == s[0]);
        let head = if s[0].0 == k {
            seq![s[0]]
        } else {
            Seq::<((int, int, int), RuleV)>::empty()
        };
        let tail = if x.0 == k {
            seq![x]
        } else {
            Seq::<((int, int, int), RuleV)>::empty()
        };
        assert(matches_of_rank(r, k) == head + matches_of_rank(insert_asc(s.drop_first(), x), k));
        assert(matches_of_rank(s, k) == head + matches_of_rank(s.drop_first(), k));
        assert(head + (matches_of_rank(s.drop_first(), k) + tail) =~= (head + matches_of_rank(
            s.drop_first(),
            k,
        )) + tail);
    }
}

/// No element of an ascending sequence whose head is strictly greater
/// than `k` has rank `k`.
proof fn lemma_rank_absent_when_above(s: Seq<((int, int, int), RuleV)>, k: (int, int, int))
    requires
        asc_sorted(s),
        s.len() > 0 ==> spec_triple_lt(k, s[0].0),
    ensures
        matches_of_rank(s, k) =~= Seq::<((int, int, int), RuleV)>::empty(),
    decreases s.len(),
{
    if s.len() > 0 {
        assert(s[0].0 != k);
        assert(asc_sorted(s.drop_first())) by {
            assert forall|i: int, j: int|
                0 <= i < j < s.drop_first().len() implies !spec_triple_lt(
                s.drop_first()[j].0,
                s.drop_first()[i].0,
            ) by {
                assert(s.drop_first()[i] == s[i + 1]);
                assert(s.drop_first()[j] == s[j + 1]);
            }
        }
        if s.len() > 1 {
            assert(!spec_triple_lt(s[1].0, s[0].0));
        }
        lemma_rank_absent_when_above(s.drop_first(), k);
    }
}

/// The cascade keeps style-sheet order among matched rules of equal
/// specificity: the rules of any one specificity appear in the cascade
/// order exactly as they appear in style-sheet order, so of two equally
/// specific rules the later-declared one is applied later and, by
/// [`lemma_specified_value`], wins.
pub proof fn lemma_equal_specificity_order(e: ElemV, rules: Seq<RuleV>, k: (int, int, int))
    ensures
        matches_of_rank(sort_asc(sp_matching_rules(e, rules)), k) == matches_of_rank(
            sp_matching_rules(e, rules),
            k,
        ),
{
    lemma_sort_rank_stable(sp_matching_rules(e, rules), k);
}

/// Sorting by ascending specificity keeps each rank's subsequence.
proof fn lemma_sort_rank_stable(s: Seq<((int, int, int), RuleV)>, k: (int, int, int))
    ensures
        matches_of_rank(sort_asc(s), k) =~= matches_of_rank(s, k),
    decreases s.len(),
{
    if s.len() > 0 {
        lemma_sort_rank_stable(s.drop_last(), k);
        lemma_sort_asc_sorted(s.drop_last());
        lemma_insert_asc_rank(sort_asc(s.drop_last()), s.last(), k);
        lemma_matches_of_rank_snoc(s, k);
    }
}

/// Structural isomorphism between a document node and a styled node: the
/// same child count at every level, children in the same order.
pub open spec fn same_shape(n: NodeV, s: StyledV) -> bool
    decreases n,
{
    s.children.len() == n.children.len() && same_shape_children(n.children, s.children)
}

/// Structural isomorphism of two child sequences, pairwise.
pub open spec fn same_shape_children(ns: Seq<NodeV>, ss: Seq<StyledV>) -> bool
    decreases ns,
{
    ns.len() == ss.len() && (ns.len() == 0 || (same_shape(ns[0], ss[0]) && same_shape_children(
        ns.drop_first(),
        ss.drop_first(),
    )))
}

/// The resolved style tree is structurally isomorphic to its document
/// tree: the same child count and order at every node, recursively.
pub proof fn lemma_style_tree_iso(n: NodeV, rules: Seq<RuleV>)
    ensures
        same_shape(n, sp_style_tree(n, rules)),
    decreases n,
{
    lemma_style_children_iso(n.children, rules);
    lemma_style_children_len(n.children, rules);
}

/// The resolved children mirror the document children pairwise.
proof fn lemma_style_children_iso(ns: Seq<NodeV>, rules: Seq<RuleV>)
    ensures
        same_shape_children(ns, sp_style_children(ns, rules)),
    decreases ns,
{
    lemma_style_children_len(ns, rules);
    if ns.len() > 0 {
        lemma_style_tree_iso(ns[0], rules);
        lemma_style_children_iso(ns.drop_first(), rules);
        assert(sp_style_children(ns, rules).drop_first() =~= sp_style_children(
            ns.drop_first(),
            rules,
        ));
    }
}

/// One resolved child per document child.
proof fn lemma_style_children_len(ns: Seq<NodeV>, rules: Seq<RuleV>)
    ensures
        sp_style_children(ns, rules).len() == ns.len(),
    decreases ns,
{
    if ns.len() > 0 {
        lemma_style_children_len(ns.drop_first(), rules);
    }
}

/// When a rule's selectors are in descending specificity order, the first
/// matching selector has the greatest specificity of any matching
/// selector, so it determines the rule's effective specificity.
pub proof fn lemma_first_match_highest(e: ElemV, sels: Seq<SelectorV>)
    requires
        crate::css::desc_sorted(sels),
    ensures
        match first_match(e, sels) {
            Option::Some(sel) => forall|k: int|
                0 <= k < sels.len() && selector_matches(e, sels[k]) ==> !spec_triple_lt(
                    sel_specificity(sel),
                    sel_specificity(sels[k]),
                ),
            Option::None => forall|k: int| 0 <= k < sels.len() ==> !selector_matches(e, sels[k]),
        },
    decreases sels.len(),
{
    if sels.len() > 0 && !selector_matches(e, sels[0]) {
        assert(crate::css::desc_sorted(sels.drop_first())) by {
            assert forall|i: int, j: int|
                0 <= i < j < sels.drop_first().len() implies !spec_triple_lt(
                sel_specificity(sels.drop_first()[i]),
                sel_specificity(sels.drop_first()[j]),
            ) by {
                assert(sels.drop_first()[i] == sels[i + 1]);
                assert(sels.drop_first()[j] == sels[j + 1]);
            }
        }
        lemma_first_match_highest(e, sels.drop_first());
        match first_match(e, sels) {
            Option::Some(sel) => {
                assert forall|k: int|
                    0 <= k < sels.len() && selector_matches(e, sels[k]) implies !spec_triple_lt(
                    sel_specificity(sel),
                    sel_specificity(sels[k]),
                ) by {
                    assert(k >= 1);
                    assert(sels.drop_first()[k - 1] == sels[k]);
                }
            },
            Option::None => {
                assert forall|k: int| 0 <= k < sels.len() implies !selector_matches(
                    e,
                    sels[k],
                ) by {
                    if k >= 1 {
                        assert(sels.drop_first()[k - 1] == sels[k]);
                    }
                }
            },
        }
    } else if sels.len() > 0 {
        assert forall|k: int|
            0 <= k < sels.len() && selector_matches(e, sels[k]) implies !spec_triple_lt(
            sel_specificity(sels[0]),
            sel_specificity(sels[k]),
        ) by {}
    }
}

/// Appending a styled node appends its view.
proof fn lemma_styled_views_push<'a>(
    s: Seq<StyledNode<'a>>,
    prefix_views: Seq<StyledV>,
    last: StyledNode<'a>,
)
    requires
        s.len() > 0,
        s.drop_last() =~= s.subrange(0, s.len() - 1),
        styled_views(s.subrange(0, s.len() - 1)) == prefix_views,
        s.last() == last,
    ensures
        styled_views(s) =~= prefix_views + seq![last@],
    decreases s.len(),
{
    if s.len() == 1 {
        assert(styled_views(s.drop_first()) =~= Seq::<StyledV>::empty());
        assert(s[0] == last);
    } else {
        let sd = s.drop_first();
        assert(sd.subrange(0, sd.len() - 1) =~= s.subrange(0, s.len() - 1).drop_first());
        assert(styled_views(s.subrange(0, s.len() - 1)) == seq![s[0]@] + styled_views(
            s.subrange(0, s.len() - 1).drop_first(),
        ));
        lemma_styled_views_push(sd, styled_views(sd.subrange(0, sd.len() - 1)), last);
        assert(styled_views(s) == seq![s[0]@] + styled_views(sd));
        assert(prefix_views[0] == s[0]@);
        assert(styled_views(s) =~= prefix_views + seq![last@]);
    }
}

impl<'a> StyledNode<'a> {
    /// The value resolved for the given property on this node, if any: no
    /// inheritance from ancestors and no implicit defaults.
    pub fn value(&self, name: &str) -> (r: Option<Value>)
        ensures
            ({
                let props = self@.props;
                if props.contains_key(name@) {
                    r matches Some(v) && v@ == props[name@]
                } else {
                    r is None
                }
            }),
    {
        match self.specified_values.get(name) {
            Some(v) => Some(v.clone()),
            None => None,
        }
    }

    /// The value resolved for `name`, else the value resolved for
    /// `fallback_name`, else a duplicate of `default`.
    pub fn lookup(&self, name: &str, fallback_name: &str, default: &Value) -> (r: Value)
        ensures
            ({
                let props = self@.props;
                if props.contains_key(name@) {
                    r@ == props[name@]
                } else if props.contains_key(fallback_name@) {
                    r@ == props[fallback_name@]
                } else {
                    r@ == default@
                }
            }),
    {
        match self.value(name) {
            Some(v) => v,
            None => match self.value(fallback_name) {
                Some(v) => v,
                None => default.clone(),
            },
        }
    }

    /// How this node is displayed: `Block` only when the `display`
    /// property is the keyword `block`, `NoDisplay` only when it is the
    /// keyword `none`, and `Inline` in every other case, including the
    /// property being absent or holding any other value.
    pub fn display(&self) -> (r: Display)
        ensures
            ({
                let props = self@.props;
                if props.contains_key("display"@) {
                    match props["display"@] {
                        ValueV::Keyword(k) => if k == "block"@ {
                            r == Display::Block
                        } else if k == "none"@ {
                            r == Display::NoDisplay
                        } else {
                            r == Display::Inline
                        },
                        ValueV::Length(_, _) => r == Display::Inline,
                        ValueV::ColorValue(_) => r == Display::Inline,
                    }
                } else {
                    r == Display::Inline
                }
            }),
    {
        match self.value("display") {
            Some(v) => match v {
                Value::Keyword(s) => {
                    if str_eq(s.as_str(), "block") {
                        Display::Block
                    } else if str_eq(s.as_str(), "none") {
                        Display::NoDisplay
                    } else {
                        Display::Inline
                    }
                },
                _ => Display::Inline,
            },
            None => Display::Inline,
        }
    }
}

} // verus!
