//! The style-sheet grammar: value, selector and rule types, selector
//! specificity, and the parser that turns source text into a `Stylesheet`.

use vstd::prelude::*;
use crate::parser::{
    CharClass, Parser, is_digit_char, is_ident_char, lemma_scan_end, scan_class, scan_end,
};
use crate::chars::{byte_offset, byte_pos, lemma_byte_pos_encode, chars_of};

verus! {

/// A style sheet: an ordered list of rules. Rule order is source order
/// and is the cascade tie-break between rules of equal specificity.
#[derive(Debug)]
pub struct Stylesheet {
    pub rules: Vec<Rule>,
}

/// A rule: a list of selectors (sorted by descending specificity after
/// parsing) and a list of declarations in source order.
#[derive(Debug)]
pub struct Rule {
    pub selectors: Vec<Selector>,
    pub declarations: Vec<Declaration>,
}

impl Clone for Rule {
    /// Duplicates the rule; the copy has the same view.
    fn clone(&self) -> (r: Rule)
        ensures
            r@ == self@,
    {
        let mut selectors: Vec<Selector> = Vec::new();
        let mut i: usize = 0;
        while i < self.selectors.len()
            invariant
                i <= self.selectors@.len(),
                selectors@.len() == i,
                forall|q: int| 0 <= q < i ==> (#[trigger] selectors@[q])@ == self.selectors@[q]@,
            decreases self.selectors@.len() - i,
        {
            selectors.push(self.selectors[i].clone());
            i = i + 1;
        }
        let mut declarations: Vec<Declaration> = Vec::new();
        let mut j: usize = 0;
        while j < self.declarations.len()
            invariant
                j <= self.declarations@.len(),
                declarations@.len() == j,
                forall|q: int|
                    0 <= q < j ==> (#[trigger] declarations@[q])@ == self.declarations@[q]@,
            decreases self.declarations@.len() - j,
        {
            declarations.push(self.declarations[j].clone());
            j = j + 1;
        }
        let r = Rule { selectors, declarations };
        proof {
            assert(sel_views(r.selectors@) =~= sel_views(self.selectors@));
            assert(decl_views(r.declarations@) =~= decl_views(self.declarations@));
            assert(r@ =~= self@);
        }
        r
    }
}

/// A selector. Currently only simple selectors exist; the variant space
/// admits future selector kinds.
#[derive(Debug)]
pub enum Selector {
    /// A simple selector.
    Simple(SimpleSelector),
}

/// A simple selector: an optional tag name, an optional id, and a list of
/// class names, all of which must match an element.
#[derive(Debug)]
pub struct SimpleSelector {
    pub tag_name: Option<String>,
    pub id: Option<String>,
    pub class: Vec<String>,
}

/// Duplicates a string option; the copy has the same view.
fn clone_opt_string(v: &Option<String>) -> (r: Option<String>)
    ensures
        r == v,
{
    match v {
        Some(s) => Some(s.clone()),
        None => None,
    }
}

/// Duplicates a vector of strings.
fn clone_strings(v: &Vec<String>) -> (r: Vec<String>)
    ensures
        r@ == v@,
{
    let mut r: Vec<String> = Vec::new();
    let mut i: usize = 0;
    while i < v.len()
        invariant
            i <= v@.len(),
            r@ == v@.take(i as int),
        decreases v@.len() - i,
    {
        r.push(v[i].clone());
        i = i + 1;
        proof {
            assert(r@ =~= v@.take(i as int));
        }
    }
    proof {
        assert(r@ =~= v@);
    }
    r
}

impl Clone for SimpleSelector {
    /// Duplicates the selector; the copy has the same view.
    fn clone(&self) -> (r: SimpleSelector)
        ensures
            r@ == self@,
    {
        let r = SimpleSelector {
            tag_name: clone_opt_string(&self.tag_name),
            id: clone_opt_string(&self.id),
            class: clone_strings(&self.class),
        };
        proof {
            assert(r@.classes =~= self@.classes);
        }
        r
    }
}

impl Clone for Selector {
    /// Duplicates the selector; the copy has the same view.
    fn clone(&self) -> (r: Selector)
        ensures
            r@ == self@,
    {
        match self {
            Selector::Simple(s) => Selector::Simple(s.clone()),
        }
    }
}

/// A declaration: a property name and its value.
#[derive(Debug)]
pub struct Declaration {
    pub name: String,
    pub value: Value,
}

impl Clone for Declaration {
    /// Duplicates the declaration; the copy has the same view.
    fn clone(&self) -> (r: Declaration)
        ensures
            r@ == self@,
    {
        Declaration { name: self.name.clone(), value: self.value.clone() }
    }
}

/// An exact decimal number: `mantissa / 10^scale`. Values built by the
/// parser are canonical: either the scale is zero or the mantissa is not
/// divisible by ten, so equal numbers compare equal structurally.
#[derive(Clone, Copy, Debug, PartialEq, Eq, Structural)]
pub struct Decimal {
    pub mantissa: u64,
    pub scale: u32,
}

impl Decimal {
    /// Canonical form: no trailing zero digit in the fractional part.
    pub open spec fn wf(self) -> bool {
        self.scale == 0 || self.mantissa % 10 != 0
    }
}

/// The canonical (mantissa, scale) pair: trailing zeros of the fractional
/// part are stripped.
pub open spec fn canon_decimal(m: int, f: int) -> (int, int)
    decreases f,
{
    if f > 0 && m % 10 == 0 {
        canon_decimal(m / 10, f - 1)
    } else {
        (m, f)
    }
}

/// A unit of measurement for lengths.
#[derive(Clone, Copy, Debug, PartialEq, Eq, Structural)]
pub enum Unit {
    Px,
}

/// A color with red, green, blue and alpha channels.
#[derive(Clone, Copy, Debug, PartialEq, Eq, Structural)]
pub struct Color {
    pub r: u8,
    pub g: u8,
    pub b: u8,
    pub a: u8,
}

/// A property value.
#[derive(Debug, PartialEq)]
pub enum Value {
    /// A keyword, as a string.
    Keyword(String),
    /// A length: an exact decimal number of some unit.
    Length(Decimal, Unit),
    /// A color.
    ColorValue(Color),
}

/// The view of a property value.
#[verifier::ext_equal]
pub enum ValueV {
    Keyword(Seq<char>),
    Length(Decimal, Unit),
    ColorValue(Color),
}

impl View for Value {
    type V = ValueV;

    open spec fn view(&self) -> ValueV {
        match self {
            Value::Keyword(s) => ValueV::Keyword(s@),
            Value::Length(d, u) => ValueV::Length(*d, *u),
            Value::ColorValue(c) => ValueV::ColorValue(*c),
        }
    }
}

impl Clone for Value {
    /// Duplicates the value; the copy has the same view.
    fn clone(&self) -> (r: Value)
        ensures
            r@ == self@,
    {
        match self {
            Value::Keyword(s) => Value::Keyword(s.clone()),
            Value::Length(d, u) => Value::Length(*d, *u),
            Value::ColorValue(c) => Value::ColorValue(*c),
        }
    }
}

/// The view of a simple selector.
#[verifier::ext_equal]
pub struct SimpleSelV {
    pub tag: Option<Seq<char>>,
    pub id: Option<Seq<char>>,
    pub classes: Seq<Seq<char>>,
}

impl View for SimpleSelector {
    type V = SimpleSelV;

    open spec fn view(&self) -> SimpleSelV {
        SimpleSelV {
            tag: match self.tag_name {
                Some(t) => Some(t@),
                None => None,
            },
            id: match self.id {
                Some(i) => Some(i@),
                None => None,
            },
            classes: Seq::new(self.class@.len(), |i: int| self.class@[i]@),
        }
    }
}

/// The view of a selector.
#[verifier::ext_equal]
pub enum SelectorV {
    Simple(SimpleSelV),
}

impl View for Selector {
    type V = SelectorV;

    open spec fn view(&self) -> SelectorV {
        match self {
            Selector::Simple(s) => SelectorV::Simple(s@),
        }
    }
}

/// The view of a declaration.
#[verifier::ext_equal]
pub struct DeclV {
    pub name: Seq<char>,
    pub value: ValueV,
}

impl View for Declaration {
    type V = DeclV;

    open spec fn view(&self) -> DeclV {
        DeclV { name: self.name@, value: self.value@ }
    }
}

/// The view of a rule.
#[verifier::ext_equal]
pub struct RuleV {
    pub selectors: Seq<SelectorV>,
    pub declarations: Seq<DeclV>,
}

/// The views of a sequence of selectors.
pub open spec fn sel_views(s: Seq<Selector>) -> Seq<SelectorV> {
    Seq::new(s.len(), |i: int| s[i]@)
}

/// The views of a sequence of declarations.
pub open spec fn decl_views(s: Seq<Declaration>) -> Seq<DeclV> {
    Seq::new(s.len(), |i: int| s[i]@)
}

impl View for Rule {
    type V = RuleV;

    open spec fn view(&self) -> RuleV {
        RuleV { selectors: sel_views(self.selectors@), declarations: decl_views(self.declarations@) }
    }
}

/// The views of a sequence of rules.
pub open spec fn rule_views(s: Seq<Rule>) -> Seq<RuleV> {
    Seq::new(s.len(), |i: int| s[i]@)
}

impl View for Stylesheet {
    type V = Seq<RuleV>;

    open spec fn view(&self) -> Seq<RuleV> {
        rule_views(self.rules@)
    }
}

/// The specificity of a selector: id count, class count, tag count. The
/// tuple is compared lexicographically; an id outweighs any number of
/// classes, a class outweighs a tag.
pub type Specificity = (usize, usize, usize);

/// The specificity of a selector's view.
pub open spec fn sel_specificity(s: SelectorV) -> (int, int, int) {
    match s {
        SelectorV::Simple(ss) => (
            if ss.id is Some {
                1int
            } else {
                0int
            },
            ss.classes.len() as int,
            if ss.tag is Some {
                1int
            } else {
                0int
            },
        ),
    }
}

/// Strict lexicographic order on specificity triples.
pub open spec fn spec_triple_lt(a: (int, int, int), b: (int, int, int)) -> bool {
    a.0 < b.0 || (a.0 == b.0 && (a.1 < b.1 || (a.1 == b.1 && a.2 < b.2)))
}

impl Selector {
    /// The specificity of this selector.
    pub fn specificity(&self) -> (r: Specificity)
        ensures
            (r.0 as int, r.1 as int, r.2 as int) == sel_specificity(self@),
    {
        let Selector::Simple(simple) = self;
        let a: usize = match &simple.id {
            Some(_) => 1,
            None => 0,
        };
        let b: usize = simple.class.len();
        let c: usize = match &simple.tag_name {
            Some(_) => 1,
            None => 0,
        };
        (a, b, c)
    }
}

/// Strict lexicographic comparison of two specificities.
pub fn specificity_lt(a: &Specificity, b: &Specificity) -> (r: bool)
    ensures
        r == spec_triple_lt(
            (a.0 as int, a.1 as int, a.2 as int),
            (b.0 as int, b.1 as int, b.2 as int),
        ),
{
    a.0 < b.0 || (a.0 == b.0 && (a.1 < b.1 || (a.1 == b.1 && a.2 < b.2)))
}

/// Inserts a selector into a descending-specificity sequence, after every
/// selector of greater or equal specificity (so equal specificities keep
/// their source order).
pub open spec fn insert_desc(sorted: Seq<SelectorV>, x: SelectorV) -> Seq<SelectorV>
    decreases sorted.len(),
{
    if sorted.len() == 0 {
        seq![x]
    } else if spec_triple_lt(sel_specificity(sorted[0]), sel_specificity(x)) {
        seq![x] + sorted
    } else {
        seq![sorted[0]] + insert_desc(sorted.drop_first(), x)
    }
}

/// The stable sort of a selector sequence by descending specificity.
pub open spec fn sort_desc(s: Seq<SelectorV>) -> Seq<SelectorV>
    decreases s.len(),
{
    if s.len() == 0 {
        Seq::empty()
    } else {
        insert_desc(sort_desc(s.drop_last()), s.last())
    }
}

/// Descending order: no selector has strictly smaller specificity than a
/// later one.
pub open spec fn desc_sorted(s: Seq<SelectorV>) -> bool {
    forall|i: int, j: int|
        0 <= i < j < s.len() ==> !spec_triple_lt(sel_specificity(s[i]), sel_specificity(s[j]))
}

/// Inserting into a descending sequence keeps it descending.
pub proof fn lemma_insert_desc_sorted(s: Seq<SelectorV>, x: SelectorV)
    requires
        desc_sorted(s),
    ensures
        desc_sorted(insert_desc(s, x)),
        insert_desc(s, x).len() == s.len() + 1,
    decreases s.len(),
{
    if s.len() == 0 {
    } else if spec_triple_lt(sel_specificity(s[0]), sel_specificity(x)) {
        let r = insert_desc(s, x);
        assert forall|i: int, j: int|
            0 <= i < j < r.len() implies !spec_triple_lt(
            sel_specificity(r[i]),
            sel_specificity(r[j]),
        ) by {
            if i == 0 {
                assert(r[j] == s[j - 1]);
                if j > 1 {
                    assert(!spec_triple_lt(sel_specificity(s[0]), sel_specificity(s[j - 1])));
                }
            } else {
                assert(r[i] == s[i - 1]);
                assert(r[j] == s[j - 1]);
            }
        }
    } else {
        assert(desc_sorted(s.drop_first())) by {
            assert forall|i: int, j: int|
                0 <= i < j < s.drop_first().len() implies !spec_triple_lt(
                sel_specificity(s.drop_first()[i]),
                sel_specificity(s.drop_first()[j]),
            ) by {
                assert(s.drop_first()[i] == s[i + 1]);
                assert(s.drop_first()[j] == s[j + 1]);
            }
        }
        lemma_insert_desc_sorted(s.drop_first(), x);
        let r = insert_desc(s, x);
        let t = insert_desc(s.drop_first(), x);
        assert forall|i: int, j: int|
            0 <= i < j < r.len() implies !spec_triple_lt(
            sel_specificity(r[i]),
            sel_specificity(r[j]),
        ) by {
            if i == 0 {
                assert(r[j] == t[j - 1]);
                lemma_insert_desc_head(s.drop_first(), x, j - 1, sel_specificity(s[0]));
            } else {
                assert(r[i] == t[i - 1]);
                assert(r[j] == t[j - 1]);
            }
        }
    }
}

/// When no element ranks below a bound and the inserted element does not
/// either, no element of the insertion's result ranks below that bound.
proof fn lemma_insert_desc_head(s: Seq<SelectorV>, x: SelectorV, j: int, bound: (int, int, int))
    requires
        0 <= j < insert_desc(s, x).len(),
        !spec_triple_lt(bound, sel_specificity(x)),
        forall|k: int| 0 <= k < s.len() ==> !spec_triple_lt(bound, sel_specificity(s[k])),
    ensures
        !spec_triple_lt(bound, sel_specificity(insert_desc(s, x)[j])),
    decreases s.len(),
{
    if s.len() == 0 {
    } else if spec_triple_lt(sel_specificity(s[0]), sel_specificity(x)) {
    } else {
        if j > 0 {
            assert(forall|k: int|
                0 <= k < s.drop_first().len() ==> !spec_triple_lt(
                    bound,
                    sel_specificity(s.drop_first()[k]),
                )) by {
                assert forall|k: int| 0 <= k < s.drop_first().len() implies !spec_triple_lt(
                    bound,
                    sel_specificity(s.drop_first()[k]),
                ) by {
                    assert(s.drop_first()[k] == s[k + 1]);
                }
            }
            lemma_insert_desc_head(s.drop_first(), x, j - 1, bound);
        }
    }
}

/// The stable sort by descending specificity is descending.
pub proof fn lemma_sort_desc_sorted(s: Seq<SelectorV>)
    ensures
        desc_sorted(sort_desc(s)),
        sort_desc(s).len() == s.len(),
    decreases s.len(),
{
    if s.len() > 0 {
        lemma_sort_desc_sorted(s.drop_last());
        lemma_insert_desc_sorted(sort_desc(s.drop_last()), s.last());
    }
}

/// Where an insertion lands: before the first strictly-smaller element.
proof fn lemma_insert_desc_at(s: Seq<SelectorV>, x: SelectorV, j: int)
    requires
        0 <= j <= s.len(),
        forall|k: int| 0 <= k < j ==> !spec_triple_lt(sel_specificity(s[k]), sel_specificity(x)),
        j < s.len() ==> spec_triple_lt(sel_specificity(s[j]), sel_specificity(x)),
    ensures
        insert_desc(s, x) =~= s.take(j) + seq![x] + s.skip(j),
    decreases s.len(),
{
    if s.len() == 0 {
    } else if j == 0 {
        if !spec_triple_lt(sel_specificity(s[0]), sel_specificity(x)) {
            assert(j < s.len() && !spec_triple_lt(sel_specificity(s[j]), sel_specificity(x)));
        }
    } else {
        assert(!spec_triple_lt(sel_specificity(s[0]), sel_specificity(x)));
        assert forall|k: int| 0 <= k < j - 1 implies !spec_triple_lt(
            sel_specificity(s.drop_first()[k]),
            sel_specificity(x),
        ) by {
            assert(s.drop_first()[k] == s[k + 1]);
        }
        if j - 1 < s.drop_first().len() {
            assert(s.drop_first()[j - 1] == s[j]);
        }
        lemma_insert_desc_at(s.drop_first(), x, j - 1);
    }
}

/// Sorts selectors by descending specificity, stably.
fn sort_selectors(v: Vec<Selector>) -> (r: Vec<Selector>)
    ensures
        sel_views(r@) == sort_desc(sel_views(v@)),
{
    let mut out: Vec<Selector> = Vec::new();
    let mut i: usize = 0;
    proof {
        assert(sel_views(v@.take(0)) =~= Seq::<SelectorV>::empty());
        assert(sel_views(out@) =~= sort_desc(sel_views(v@.take(0))));
    }
    while i < v.len()
        invariant
            i <= v@.len(),
            sel_views(out@) == sort_desc(sel_views(v@.take(i as int))),
        decreases v@.len() - i,
    {
        let x_spec = v[i].specificity();
        let mut j: usize = 0;
        while j < out.len()
            invariant
                j <= out@.len(),
                (x_spec.0 as int, x_spec.1 as int, x_spec.2 as int) == sel_specificity(
                    v@[i as int]@,
                ),
                i < v@.len(),
                forall|k: int|
                    0 <= k < j ==> !spec_triple_lt(
                        sel_specificity(sel_views(out@)[k]),
                        sel_specificity(v@[i as int]@),
                    ),
            ensures
                j <= out@.len(),
                forall|k: int|
                    0 <= k < j ==> !spec_triple_lt(
                        sel_specificity(sel_views(out@)[k]),
                        sel_specificity(v@[i as int]@),
                    ),
                j < out@.len() ==> spec_triple_lt(
                    sel_specificity(sel_views(out@)[j as int]),
                    sel_specificity(v@[i as int]@),
                ),
            decreases out@.len() - j,
        {
            let y_spec = out[j].specificity();
            if specificity_lt(&y_spec, &x_spec) {
                break;
            }
            j = j + 1;
        }
        let ghost old_out = out@;
        let ghost xv = v@[i as int]@;
        let x = v[i].clone();
        out.insert(j, x);
        i = i + 1;
        proof {
            lemma_insert_desc_at(sel_views(old_out), xv, j as int);
            assert(sel_views(out@) =~= sel_views(old_out).take(j as int) + seq![xv] + sel_views(
                old_out,
            ).skip(j as int));
            assert(sel_views(v@.take(i as int)).drop_last() =~= sel_views(v@.take(i - 1)));
            assert(sel_views(v@.take(i as int)).last() == xv);
            assert(sort_desc(sel_views(v@.take(i as int))) == insert_desc(
                sort_desc(sel_views(v@.take(i - 1))),
                xv,
            ));
        }
    }
    proof {
        assert(v@.take(v@.len() as int) =~= v@);
        assert(sel_views(v@.take(v@.len() as int)) =~= sel_views(v@));
    }
    out
}

/// The ways a style sheet can fail to parse, each the token class that
/// was expected at the failure position.
#[derive(Clone, Copy, Debug, PartialEq, Eq, Structural)]
pub enum ParseErrorKind {
    /// A character that can start neither a selector component nor `,`
    /// nor `{` appeared in a selector list.
    UnexpectedCharacterInSelectorList,
    /// A declaration block did not start with `{`.
    ExpectedBlockOpen,
    /// The input ended before the `}` closing a declaration block.
    UnterminatedBlock,
    /// The `:` after a property name is missing.
    ExpectedColon,
    /// The `;` after a declaration's value is missing.
    ExpectedSemicolon,
    /// A numeric literal does not have the form `digit+ ('.' digit+)?`.
    MalformedNumber,
    /// A numeric literal is beyond the representable range.
    NumberTooLarge,
    /// A length's unit identifier is not a recognized unit.
    UnrecognizedUnit,
    /// A color literal is not six hexadecimal digits after `#`.
    MalformedHexColor,
}

/// A parse failure: the byte offset where it was found and the expected
/// token. Any failure is fatal to the whole style sheet.
#[derive(Clone, Copy, Debug, PartialEq, Eq, Structural)]
pub struct ParseError {
    pub offset: usize,
    pub kind: ParseErrorKind,
}

/// A parse failure at the specification level: a character position and
/// the expected token.
#[verifier::ext_equal]
pub struct ErrV {
    pub pos: int,
    pub kind: ParseErrorKind,
}

/// The position clamped into the character range of the input.
pub open spec fn clamp_pos(s: Seq<char>, p: int) -> int {
    if p < 0 {
        0
    } else if p > s.len() {
        s.len() as int
    } else {
        p
    }
}

/// A selector with no tag, id or class constraint: the bare universal
/// selector, which matches every element.
pub open spec fn sp_empty_selector() -> SimpleSelV {
    SimpleSelV { tag: None, id: None, classes: Seq::empty() }
}

/// Parses the components of one simple selector starting at `p`: any run
/// of `#id`, `.class`, `*` and tag-name components, each overwriting or
/// extending the accumulator, ending at the first character that starts
/// none of them.
pub open spec fn sp_simple_selector(s: Seq<char>, p: int, acc: SimpleSelV) -> (SimpleSelV, int)
    decreases s.len() - p,
{
    if p < 0 || p >= s.len() {
        (acc, p)
    } else if s[p] == '#' {
        let e = scan_end(s, p + 1, CharClass::Ident);
        proof {
            lemma_scan_end(s, p + 1, CharClass::Ident);
        }
        sp_simple_selector(
            s,
            e,
            SimpleSelV { tag: acc.tag, id: Some(s.subrange(p + 1, e)), classes: acc.classes },
        )
    } else if s[p] == '.' {
        let e = scan_end(s, p + 1, CharClass::Ident);
        proof {
            lemma_scan_end(s, p + 1, CharClass::Ident);
        }
        sp_simple_selector(
            s,
            e,
            SimpleSelV {
                tag: acc.tag,
                id: acc.id,
                classes: acc.classes.push(s.subrange(p + 1, e)),
            },
        )
    } else if s[p] == '*' {
        sp_simple_selector(s, p + 1, acc)
    } else if is_ident_char(s[p]) {
        let e = scan_end(s, p, CharClass::Ident);
        proof {
            lemma_scan_end(s, p + 1, CharClass::Ident);
            assert(scan_end(s, p, CharClass::Ident) == scan_end(s, p + 1, CharClass::Ident));
        }
        sp_simple_selector(
            s,
            e,
            SimpleSelV { tag: Some(s.subrange(p, e)), id: acc.id, classes: acc.classes },
        )
    } else {
        (acc, p)
    }
}

/// The simple-selector parse only moves forward and stays in the input.
pub proof fn lemma_sp_simple_selector_bounds(s: Seq<char>, p: int, acc: SimpleSelV)
    requires
        0 <= p,
    ensures
        p <= sp_simple_selector(s, p, acc).1,
        p <= s.len() ==> sp_simple_selector(s, p, acc).1 <= s.len(),
    decreases s.len() - p,
{
    if p >= s.len() {
    } else if s[p] == '#' || s[p] == '.' {
        let e = scan_end(s, p + 1, CharClass::Ident);
        lemma_scan_end(s, p + 1, CharClass::Ident);
        if s[p] == '#' {
            lemma_sp_simple_selector_bounds(
                s,
                e,
                SimpleSelV { tag: acc.tag, id: Some(s.subrange(p + 1, e)), classes: acc.classes },
            );
        } else {
            lemma_sp_simple_selector_bounds(
                s,
                e,
                SimpleSelV {
                    tag: acc.tag,
                    id: acc.id,
                    classes: acc.classes.push(s.subrange(p + 1, e)),
                },
            );
        }
    } else if s[p] == '*' {
        lemma_sp_simple_selector_bounds(s, p + 1, acc);
    } else if is_ident_char(s[p]) {
        let e = scan_end(s, p, CharClass::Ident);
        lemma_scan_end(s, p, CharClass::Ident);
        lemma_sp_simple_selector_bounds(
            s,
            e,
            SimpleSelV { tag: Some(s.subrange(p, e)), id: acc.id, classes: acc.classes },
        );
    }
}

/// Parses a comma-separated selector list starting at `p`, in source
/// order (not yet sorted), ending before the `{` of the declaration block
/// or at the end of the input. Any other character after a selector is a
/// parse failure.
pub open spec fn sp_selectors(s: Seq<char>, p: int) -> Result<(Seq<SelectorV>, int), ErrV>
    decreases s.len() - p,
{
    let parsed = sp_simple_selector(s, p, sp_empty_selector());
    let p2 = scan_end(s, parsed.1, CharClass::Space);
    if !(0 <= p2 && p2 < s.len()) {
        Ok((seq![SelectorV::Simple(parsed.0)], p2))
    } else if s[p2] == ',' {
        let p3 = scan_end(s, p2 + 1, CharClass::Space);
        proof {
            assert(0 <= p) by {
                if p < 0 {
                    assert(parsed.1 == p);
                    assert(p2 == p);
                }
            }
            assert(p <= s.len()) by {
                if p > s.len() {
                    assert(parsed.1 == p);
                    assert(p2 == p);
                }
            }
            lemma_sp_simple_selector_bounds(s, p, sp_empty_selector());
            lemma_scan_end(s, parsed.1, CharClass::Space);
            lemma_scan_end(s, p2 + 1, CharClass::Space);
        }
        match sp_selectors(s, p3) {
            Ok(rest) => Ok((seq![SelectorV::Simple(parsed.0)] + rest.0, rest.1)),
            Err(e) => Err(e),
        }
    } else if s[p2] == '{' {
        Ok((seq![SelectorV::Simple(parsed.0)], p2))
    } else {
        Err(ErrV { pos: p2, kind: ParseErrorKind::UnexpectedCharacterInSelectorList })
    }
}

/// The selector-list parse stays in the input; failures point into it.
pub proof fn lemma_sp_selectors_bounds(s: Seq<char>, p: int)
    requires
        0 <= p <= s.len(),
    ensures
        match sp_selectors(s, p) {
            Ok(r) => p <= r.1 <= s.len(),
            Err(e) => 0 <= e.pos <= s.len(),
        },
    decreases s.len() - p,
{
    let parsed = sp_simple_selector(s, p, sp_empty_selector());
    lemma_sp_simple_selector_bounds(s, p, sp_empty_selector());
    lemma_scan_end(s, parsed.1, CharClass::Space);
    let p2 = scan_end(s, parsed.1, CharClass::Space);
    if 0 <= p2 && p2 < s.len() && s[p2] == ',' {
        let p3 = scan_end(s, p2 + 1, CharClass::Space);
        lemma_scan_end(s, p2 + 1, CharClass::Space);
        lemma_sp_selectors_bounds(s, p3);
    }
}

/// Hexadecimal digits.
pub open spec fn is_hex_char(c: char) -> bool {
    let u = c as u32;
    (0x30 <= u && u <= 0x39) || (0x61 <= u && u <= 0x66) || (0x41 <= u && u <= 0x46)
}

/// The numeric value of a hexadecimal digit.
pub open spec fn hex_char_val(c: char) -> int {
    let u = c as u32;
    if 0x30 <= u && u <= 0x39 {
        u - 0x30
    } else if 0x61 <= u && u <= 0x66 {
        u - 0x57
    } else if 0x41 <= u && u <= 0x46 {
        u - 0x37
    } else {
        0
    }
}

/// The numeric value of a decimal digit.
pub open spec fn digit_char_val(c: char) -> int {
    c as u32 - 0x30
}

/// The value of a run of decimal digits, most significant first.
pub open spec fn dec_val(t: Seq<char>) -> int
    decreases t.len(),
{
    if t.len() == 0 {
        0
    } else {
        dec_val(t.drop_last()) * 10 + digit_char_val(t.last())
    }
}

/// The value of a digit run is not negative.
pub proof fn lemma_dec_val_nonneg(t: Seq<char>)
    requires
        forall|i: int| 0 <= i < t.len() ==> is_digit_char(t[i]),
    ensures
        dec_val(t) >= 0,
    decreases t.len(),
{
    if t.len() > 0 {
        lemma_dec_val_nonneg(t.drop_last());
    }
}

/// A digit run is worth at least any of its prefixes.
pub proof fn lemma_dec_val_prefix(t: Seq<char>, i: int)
    requires
        forall|k: int| 0 <= k < t.len() ==> is_digit_char(t[k]),
        0 <= i <= t.len(),
    ensures
        dec_val(t.take(i)) <= dec_val(t),
    decreases t.len(),
{
    if i == t.len() {
        assert(t.take(i) =~= t);
    } else {
        lemma_dec_val_nonneg(t.drop_last());
        assert(t.drop_last().take(i) =~= t.take(i));
        lemma_dec_val_prefix(t.drop_last(), i);
    }
}

/// A well-formed numeric literal: one or more digits, optionally followed
/// by a decimal point and one or more digits.
pub open spec fn valid_number(t: Seq<char>) -> bool {
    let k = scan_end(t, 0, CharClass::Digit);
    k > 0 && (k == t.len() || (t[k] == '.' && k + 1 < t.len() && scan_end(t, k + 1, CharClass::Digit)
        == t.len()))
}

/// The digits of a numeric literal with the decimal point removed.
pub open spec fn number_digits(t: Seq<char>) -> Seq<char> {
    let k = scan_end(t, 0, CharClass::Digit);
    if k == t.len() {
        t
    } else {
        t.subrange(0, k) + t.subrange(k + 1, t.len() as int)
    }
}

/// How many digits of a numeric literal follow the decimal point.
pub open spec fn number_frac_len(t: Seq<char>) -> int {
    let k = scan_end(t, 0, CharClass::Digit);
    if k == t.len() {
        0
    } else {
        t.len() - k - 1
    }
}

/// The canonical decimal denoted by a numeric literal.
pub open spec fn number_decimal(t: Seq<char>) -> (int, int) {
    canon_decimal(dec_val(number_digits(t)), number_frac_len(t))
}

/// Stripping a trailing zero digit of the fractional part leaves the
/// canonical decimal unchanged.
pub proof fn lemma_canon_step(d: Seq<char>, f: int)
    requires
        forall|i: int| 0 <= i < d.len() ==> is_digit_char(d[i]),
        f > 0,
        d.len() > 0,
        digit_char_val(d.last()) == 0,
    ensures
        canon_decimal(dec_val(d), f) == canon_decimal(dec_val(d.drop_last()), f - 1),
{
    lemma_dec_val_nonneg(d.drop_last());
    assert(dec_val(d) == dec_val(d.drop_last()) * 10);
    assert(dec_val(d) % 10 == 0) by {
        vstd::arithmetic::div_mod::lemma_mod_multiples_basic(dec_val(d.drop_last()), 10);
    }
    assert(dec_val(d) / 10 == dec_val(d.drop_last())) by {
        vstd::arithmetic::div_mod::lemma_div_by_multiple(dec_val(d.drop_last()), 10);
    }
}

/// A canonical decimal stays as it is: no trailing zero to strip.
pub proof fn lemma_canon_stop(d: Seq<char>, f: int)
    requires
        forall|i: int| 0 <= i < d.len() ==> is_digit_char(d[i]),
        f == 0 || (d.len() > 0 && digit_char_val(d.last()) != 0),
    ensures
        canon_decimal(dec_val(d), f) == (dec_val(d), f),
{
    if f > 0 {
        lemma_dec_val_nonneg(d.drop_last());
        let dv = digit_char_val(d.last());
        assert(is_digit_char(d[d.len() - 1]));
        assert(1 <= dv <= 9);
        assert(dec_val(d) == dec_val(d.drop_last()) * 10 + dv);
        assert(dec_val(d) % 10 == dv) by {
            vstd::arithmetic::div_mod::lemma_mod_multiples_vanish(
                dec_val(d.drop_last()),
                dv,
                10,
            );
        }
    }
}

/// Parses the numeric portion of a length at `p`: the longest run of
/// digits and decimal points, which must be well formed and fit the
/// representation.
pub open spec fn sp_number(s: Seq<char>, p: int) -> Result<(Decimal, int), ErrV> {
    if !(0 <= p && p <= s.len()) {
        Err(ErrV { pos: clamp_pos(s, p), kind: ParseErrorKind::MalformedNumber })
    } else {
        let e = scan_end(s, p, CharClass::Number);
        let t = s.subrange(p, e);
        if !valid_number(t) {
            Err(ErrV { pos: p, kind: ParseErrorKind::MalformedNumber })
        } else {
            let md = number_decimal(t);
            if md.0 > u64::MAX as int || md.1 > u32::MAX as int {
                Err(ErrV { pos: p, kind: ParseErrorKind::NumberTooLarge })
            } else {
                Ok((Decimal { mantissa: md.0 as u64, scale: md.1 as u32 }, e))
            }
        }
    }
}

/// Parses a length's unit at `p`: an identifier that must name a known
/// unit; only the pixel unit exists, recognized case-insensitively.
pub open spec fn sp_unit(s: Seq<char>, p: int) -> Result<(Unit, int), ErrV> {
    if !(0 <= p && p <= s.len()) {
        Err(ErrV { pos: clamp_pos(s, p), kind: ParseErrorKind::UnrecognizedUnit })
    } else {
        let e = scan_end(s, p, CharClass::Ident);
        let u = s.subrange(p, e);
        if u.len() == 2 && (u[0] == 'p' || u[0] == 'P') && (u[1] == 'x' || u[1] == 'X') {
            Ok((Unit::Px, e))
        } else {
            Err(ErrV { pos: p, kind: ParseErrorKind::UnrecognizedUnit })
        }
    }
}

/// Parses a length at `p`: a numeric portion followed by a unit.
pub open spec fn sp_length(s: Seq<char>, p: int) -> Result<(ValueV, int), ErrV> {
    match sp_number(s, p) {
        Ok(n) => match sp_unit(s, n.1) {
            Ok(u) => Ok((ValueV::Length(n.0, u.0), u.1)),
            Err(e) => Err(e),
        },
        Err(e) => Err(e),
    }
}

/// `n` hexadecimal digits stand at `q`.
pub open spec fn hex_run_ok(s: Seq<char>, q: int, n: nat) -> bool
    decreases n,
{
    n == 0 || (0 <= q && q < s.len() && is_hex_char(s[q]) && hex_run_ok(s, q + 1, (n - 1) as nat))
}

/// The first position in a hexadecimal run that is missing or not a
/// hexadecimal digit.
pub open spec fn hex_bad_pos(s: Seq<char>, q: int, n: nat) -> int
    decreases n,
{
    if n == 0 {
        q
    } else if !(0 <= q && q < s.len() && is_hex_char(s[q])) {
        q
    } else {
        hex_bad_pos(s, q + 1, (n - 1) as nat)
    }
}

/// A hexadecimal run of `n` digits at `q` fits inside the input.
pub proof fn lemma_hex_run_ok_bounds(s: Seq<char>, q: int, n: nat)
    requires
        hex_run_ok(s, q, n),
        n > 0,
    ensures
        0 <= q && q + n <= s.len(),
    decreases n,
{
    if n > 1 {
        lemma_hex_run_ok_bounds(s, q + 1, (n - 1) as nat);
    }
}

/// The failure position of a hexadecimal run stays in the input.
pub proof fn lemma_hex_bad_pos_bounds(s: Seq<char>, q: int, n: nat)
    requires
        0 <= q <= s.len(),
    ensures
        0 <= hex_bad_pos(s, q, n) <= s.len(),
    decreases n,
{
    if n > 0 && 0 <= q && q < s.len() && is_hex_char(s[q]) {
        lemma_hex_bad_pos_bounds(s, q + 1, (n - 1) as nat);
    }
}

/// The value of the two hexadecimal digits at `q`.
pub open spec fn hex_pair_val(s: Seq<char>, q: int) -> int {
    16 * hex_char_val(s[q]) + hex_char_val(s[q + 1])
}

/// Parses a color at `p`: a `#` followed by exactly six hexadecimal
/// digits, two per channel, with the alpha channel fixed at 255.
pub open spec fn sp_color(s: Seq<char>, p: int) -> Result<(ValueV, int), ErrV> {
    if !(0 <= p && p < s.len()) {
        Err(ErrV { pos: clamp_pos(s, p), kind: ParseErrorKind::MalformedHexColor })
    } else if !hex_run_ok(s, p + 1, 2) {
        Err(ErrV { pos: hex_bad_pos(s, p + 1, 2), kind: ParseErrorKind::MalformedHexColor })
    } else if !hex_run_ok(s, p + 3, 2) {
        Err(ErrV { pos: hex_bad_pos(s, p + 3, 2), kind: ParseErrorKind::MalformedHexColor })
    } else if !hex_run_ok(s, p + 5, 2) {
        Err(ErrV { pos: hex_bad_pos(s, p + 5, 2), kind: ParseErrorKind::MalformedHexColor })
    } else {
        Ok(
            (
                ValueV::ColorValue(
                    Color {
                        r: hex_pair_val(s, p + 1) as u8,
                        g: hex_pair_val(s, p + 3) as u8,
                        b: hex_pair_val(s, p + 5) as u8,
                        a: 255,
                    },
                ),
                p + 7,
            ),
        )
    }
}

/// Parses a value at `p`: a length when a digit starts it, a color when
/// `#` starts it, otherwise a keyword (possibly empty).
pub open spec fn sp_value(s: Seq<char>, p: int) -> Result<(ValueV, int), ErrV> {
    if 0 <= p && p < s.len() && is_digit_char(s[p]) {
        sp_length(s, p)
    } else if 0 <= p && p < s.len() && s[p] == '#' {
        sp_color(s, p)
    } else if !(0 <= p && p <= s.len()) {
        Ok((ValueV::Keyword(Seq::empty()), p))
    } else {
        let e = scan_end(s, p, CharClass::Ident);
        Ok((ValueV::Keyword(s.subrange(p, e)), e))
    }
}

/// The value parse stays in the input; failures point into it.
pub proof fn lemma_sp_value_bounds(s: Seq<char>, p: int)
    requires
        0 <= p <= s.len(),
    ensures
        match sp_value(s, p) {
            Ok(r) => p <= r.1 <= s.len(),
            Err(e) => 0 <= e.pos <= s.len(),
        },
{
    if 0 <= p && p < s.len() && is_digit_char(s[p]) {
        lemma_scan_end(s, p, CharClass::Number);
        assert(sp_value(s, p) == sp_length(s, p));
        match sp_number(s, p) {
            Ok(n) => {
                assert(n.1 == scan_end(s, p, CharClass::Number));
                lemma_scan_end(s, n.1, CharClass::Ident);
                match sp_unit(s, n.1) {
                    Ok(u) => {
                        assert(u.1 == scan_end(s, n.1, CharClass::Ident));
                    },
                    Err(e2) => {
                        assert(0 <= e2.pos <= s.len());
                    },
                }
            },
            Err(e1) => {
                assert(0 <= e1.pos <= s.len());
            },
        }
    } else if 0 <= p && p < s.len() && s[p] == '#' {
        lemma_hex_bad_pos_bounds(s, p + 1, 2);
        if hex_run_ok(s, p + 1, 2) {
            lemma_hex_run_ok_bounds(s, p + 1, 2);
            lemma_hex_bad_pos_bounds(s, p + 3, 2);
            if hex_run_ok(s, p + 3, 2) {
                lemma_hex_run_ok_bounds(s, p + 3, 2);
                lemma_hex_bad_pos_bounds(s, p + 5, 2);
                if hex_run_ok(s, p + 5, 2) {
                    lemma_hex_run_ok_bounds(s, p + 5, 2);
                }
            }
        }
    } else {
        lemma_scan_end(s, p, CharClass::Ident);
    }
}

/// Parses one declaration at `p`: a property name, `:`, a value, and a
/// terminating `;`, with whitespace allowed between the parts.
pub open spec fn sp_declaration(s: Seq<char>, p: int) -> Result<(DeclV, int), ErrV> {
    let e = scan_end(s, p, CharClass::Ident);
    let p1 = scan_end(s, e, CharClass::Space);
    if !(0 <= p1 && p1 < s.len() && s[p1] == ':') {
        Err(ErrV { pos: clamp_pos(s, p1), kind: ParseErrorKind::ExpectedColon })
    } else {
        let p2 = scan_end(s, p1 + 1, CharClass::Space);
        match sp_value(s, p2) {
            Ok(v) => {
                let p4 = scan_end(s, v.1, CharClass::Space);
                if !(0 <= p4 && p4 < s.len() && s[p4] == ';') {
                    Err(ErrV { pos: clamp_pos(s, p4), kind: ParseErrorKind::ExpectedSemicolon })
                } else {
                    Ok((DeclV { name: s.subrange(p, e), value: v.0 }, p4 + 1))
                }
            },
            Err(e2) => Err(e2),
        }
    }
}

/// A successful declaration parse moves forward; failures point into the
/// input.
pub proof fn lemma_sp_declaration_progress(s: Seq<char>, p: int)
    requires
        0 <= p <= s.len(),
    ensures
        match sp_declaration(s, p) {
            Ok(r) => p < r.1 <= s.len(),
            Err(e) => 0 <= e.pos <= s.len(),
        },
{
    lemma_scan_end(s, p, CharClass::Ident);
    let e = scan_end(s, p, CharClass::Ident);
    lemma_scan_end(s, e, CharClass::Space);
    let p1 = scan_end(s, e, CharClass::Space);
    if 0 <= p1 && p1 < s.len() && s[p1] == ':' {
        lemma_scan_end(s, p1 + 1, CharClass::Space);
        let p2 = scan_end(s, p1 + 1, CharClass::Space);
        lemma_sp_value_bounds(s, p2);
        match sp_value(s, p2) {
            Ok(v) => {
                lemma_scan_end(s, v.1, CharClass::Space);
            },
            Err(_) => {},
        }
    }
}

/// Parses the inside of a declaration block after its `{`: declarations
/// until the closing `}`, which is consumed; running out of input first
/// is a failure.
pub open spec fn sp_decls_loop(s: Seq<char>, p: int) -> Result<(Seq<DeclV>, int), ErrV>
    decreases s.len() - p,
{
    let p1 = scan_end(s, p, CharClass::Space);
    if !(0 <= p1 && p1 < s.len()) {
        Err(ErrV { pos: clamp_pos(s, p1), kind: ParseErrorKind::UnterminatedBlock })
    } else if s[p1] == '}' {
        Ok((Seq::empty(), p1 + 1))
    } else {
        match sp_declaration(s, p1) {
            Ok(d) => {
                proof {
                    assert(0 <= p) by {
                        if p < 0 {
                            assert(p1 == p);
                        }
                    }
                    assert(p <= s.len()) by {
                        if p > s.len() {
                            assert(p1 == p);
                        }
                    }
                    lemma_scan_end(s, p, CharClass::Space);
                    lemma_sp_declaration_progress(s, p1);
                }
                match sp_decls_loop(s, d.1) {
                    Ok(rest) => Ok((seq![d.0] + rest.0, rest.1)),
                    Err(e2) => Err(e2),
                }
            },
            Err(e2) => Err(e2),
        }
    }
}

/// The declaration-block body parse moves forward; failures point into
/// the input.
pub proof fn lemma_sp_decls_loop_bounds(s: Seq<char>, p: int)
    requires
        0 <= p <= s.len(),
    ensures
        match sp_decls_loop(s, p) {
            Ok(r) => p < r.1 <= s.len(),
            Err(e) => 0 <= e.pos <= s.len(),
        },
    decreases s.len() - p,
{
    lemma_scan_end(s, p, CharClass::Space);
    let p1 = scan_end(s, p, CharClass::Space);
    if 0 <= p1 && p1 < s.len() && !(s[p1] == '}') {
        lemma_sp_declaration_progress(s, p1);
        match sp_declaration(s, p1) {
            Ok(d) => {
                lemma_sp_decls_loop_bounds(s, d.1);
            },
            Err(_) => {},
        }
    }
}

/// Parses a declaration block at `p`: `{`, declarations, `}`.
pub open spec fn sp_declarations(s: Seq<char>, p: int) -> Result<(Seq<DeclV>, int), ErrV> {
    if !(0 <= p && p < s.len() && s[p] == '{') {
        Err(ErrV { pos: clamp_pos(s, p), kind: ParseErrorKind::ExpectedBlockOpen })
    } else {
        sp_decls_loop(s, p + 1)
    }
}

/// Parses one rule at `p`: a selector list (sorted by descending
/// specificity in the result) and its declaration block.
pub open spec fn sp_rule(s: Seq<char>, p: int) -> Result<(RuleV, int), ErrV> {
    match sp_selectors(s, p) {
        Ok(sels) => match sp_declarations(s, sels.1) {
            Ok(decls) => Ok(
                (RuleV { selectors: sort_desc(sels.0), declarations: decls.0 }, decls.1),
            ),
            Err(e) => Err(e),
        },
        Err(e) => Err(e),
    }
}

/// Every rule the grammar yields carries its selectors in descending
/// specificity order, so matching can take the first match as the
/// highest-ranking one.
pub proof fn lemma_parsed_rule_selectors_sorted(s: Seq<char>, p: int)
    ensures
        match sp_rule(s, p) {
            Ok(r) => desc_sorted(r.0.selectors),
            Err(_) => true,
        },
{
    match sp_selectors(s, p) {
        Ok(sels) => {
            lemma_sort_desc_sorted(sels.0);
        },
        Err(_) => {},
    }
}

/// A successful rule parse moves forward; failures point into the input.
pub proof fn lemma_sp_rule_progress(s: Seq<char>, p: int)
    requires
        0 <= p <= s.len(),
    ensures
        match sp_rule(s, p) {
            Ok(r) => p < r.1 <= s.len(),
            Err(e) => 0 <= e.pos <= s.len(),
        },
{
    lemma_sp_selectors_bounds(s, p);
    match sp_selectors(s, p) {
        Ok(sels) => {
            if 0 <= sels.1 && sels.1 < s.len() && s[sels.1] == '{' {
                lemma_sp_decls_loop_bounds(s, sels.1 + 1);
            }
        },
        Err(_) => {},
    }
}

/// Parses a whole style sheet from `p`: rules separated by whitespace
/// until the end of the input.
pub open spec fn sp_rules(s: Seq<char>, p: int) -> Result<(Seq<RuleV>, int), ErrV>
    decreases s.len() - p,
{
    let p1 = scan_end(s, p, CharClass::Space);
    if !(0 <= p1 && p1 < s.len()) {
        Ok((Seq::empty(), p1))
    } else {
        match sp_rule(s, p1) {
            Ok(r) => {
                proof {
                    assert(0 <= p) by {
                        if p < 0 {
                            assert(p1 == p);
                        }
                    }
                    assert(p <= s.len()) by {
                        if p > s.len() {
                            assert(p1 == p);
                        }
                    }
                    lemma_scan_end(s, p, CharClass::Space);
                    lemma_sp_rule_progress(s, p1);
                }
                match sp_rules(s, r.1) {
                    Ok(rest) => Ok((seq![r.0] + rest.0, rest.1)),
                    Err(e) => Err(e),
                }
            },
            Err(e) => Err(e),
        }
    }
}

/// A parser for style-sheet text: a current position inside a vector of
/// input characters.
#[derive(Debug)]
pub struct CssParser {
    pub position: usize,
    pub input: Vec<char>,
}

impl Parser for CssParser {
    open spec fn spec_input(&self) -> Seq<char> {
        self.input@
    }

    open spec fn spec_pos(&self) -> int {
        self.position as int
    }

    /// Returns the current position of the parser.
    fn current_position(&self) -> usize {
        self.position
    }

    /// Returns the input being parsed.
    fn input(&self) -> &Vec<char> {
        &self.input
    }

    /// Sets the current position of the parser.
    fn set_current_position(&mut self, position: usize) {
        self.position = position;
    }
}

impl CssParser {
    /// The total UTF-8 width of the input fits the machine, so every
    /// failure position has a byte offset. Holds of every parser built
    /// from a string slice.
    pub open spec fn wf(&self) -> bool {
        byte_pos(self.input@, self.input@.len() as int) <= usize::MAX
    }

    /// A parser over the characters of the given text, at its start.
    pub fn new(input: &str) -> (p: CssParser)
        ensures
            p.position == 0,
            p.input@ == input@,
            p.wf(),
    {
        let bytes = input.as_bytes();
        let n = bytes.len();
        let v = chars_of(input);
        proof {
            assert(bytes@.len() <= usize::MAX);
            lemma_byte_pos_encode(v@, v@.len() as int);
            assert(v@.take(v@.len() as int) =~= v@);
        }
        CssParser { position: 0, input: v }
    }

    /// The byte offset of the given character position, clamped into the
    /// input.
    fn error_offset(&self, p: usize) -> (r: usize)
        requires
            self.wf(),
        ensures
            r as int == byte_pos(self.input@, clamp_pos(self.input@, p as int)),
    {
        let n = self.input.len();
        let cp = if p > n {
            n
        } else {
            p
        };
        byte_offset(&self.input, cp)
    }

    /// Parses an identifier: the longest run of identifier characters at
    /// the current position, possibly empty. Never fails.
    pub fn parse_identifier(&mut self) -> (r: Result<String, &'static str>)
        ensures
            final(self).input@ == old(self).input@,
            ({
                let s = old(self).input@;
                let p = old(self).position as int;
                if p <= s.len() {
                    &&& final(self).position as int == scan_end(s, p, CharClass::Ident)
                    &&& (r matches Ok(out) && out@ == s.subrange(
                        p,
                        scan_end(s, p, CharClass::Ident),
                    ))
                } else {
                    &&& final(self).position as int == p
                    &&& (r matches Ok(out) && out@ == Seq::<char>::empty())
                }
            }),
    {
        self.consume_while(CharClass::Ident)
    }

    /// Parses a simple selector: a run of `#id`, `.class`, `*` and
    /// tag-name components at the current position. Never fails; a run of
    /// no components is the bare universal selector.
    pub fn parse_simple_selector(&mut self) -> (r: Result<SimpleSelector, &'static str>)
        ensures
            final(self).input@ == old(self).input@,
            ({
                let pr = sp_simple_selector(
                    old(self).input@,
                    old(self).position as int,
                    sp_empty_selector(),
                );
                &&& (r matches Ok(sel) && sel@ == pr.0)
                &&& final(self).position as int == pr.1
            }),
    {
        let ghost s = self.input@;
        let ghost p0 = self.position as int;
        let mut selector = SimpleSelector { tag_name: None, id: None, class: Vec::new() };
        proof {
            assert(selector@ =~= sp_empty_selector());
        }
        if self.eof() {
            return Ok(selector);
        }
        loop
            invariant
                self.input@ == s,
                self.position <= s.len(),
                sp_simple_selector(s, p0, sp_empty_selector()) == sp_simple_selector(
                    s,
                    self.position as int,
                    selector@,
                ),
            ensures
                self.input@ == s,
                sp_simple_selector(s, p0, sp_empty_selector()) == (selector@, self.position as int),
            decreases s.len() - self.position,
        {
            let ghost p = self.position as int;
            let ghost acc = selector@;
            if self.eof() {
                break;
            }
            match self.next_char() {
                Ok('#') => {
                    let _ = self.consume_char();
                    let id_str = match self.parse_identifier() {
                        Ok(x) => x,
                        Err(_) => {
                            break;
                        },
                    };
                    selector.id = Some(id_str);
                    proof {
                        let e = scan_end(s, p + 1, CharClass::Ident);
                        lemma_scan_end(s, p + 1, CharClass::Ident);
                        assert(selector@ =~= SimpleSelV {
                            tag: acc.tag,
                            id: Some(s.subrange(p + 1, e)),
                            classes: acc.classes,
                        });
                    }
                },
                Ok('.') => {
                    let _ = self.consume_char();
                    let class_str = match self.parse_identifier() {
                        Ok(x) => x,
                        Err(_) => {
                            break;
                        },
                    };
                    selector.class.push(class_str);
                    proof {
                        let e = scan_end(s, p + 1, CharClass::Ident);
                        lemma_scan_end(s, p + 1, CharClass::Ident);
                        assert(selector@.classes =~= acc.classes.push(s.subrange(p + 1, e)));
                        assert(selector@ =~= SimpleSelV {
                            tag: acc.tag,
                            id: acc.id,
                            classes: acc.classes.push(s.subrange(p + 1, e)),
                        });
                    }
                },
                Ok('*') => {
                    let _ = self.consume_char();
                },
                Ok(c) => {
                    if valid_identifier_char(c) {
                        let tag_str = match self.parse_identifier() {
                            Ok(x) => x,
                            Err(_) => {
                                break;
                            },
                        };
                        selector.tag_name = Some(tag_str);
                        proof {
                            let e = scan_end(s, p, CharClass::Ident);
                            lemma_scan_end(s, p, CharClass::Ident);
                            assert(selector@ =~= SimpleSelV {
                                tag: Some(s.subrange(p, e)),
                                id: acc.id,
                                classes: acc.classes,
                            });
                        }
                    } else {
                        break;
                    }
                },
                Err(_) => {
                    break;
                },
            }
        }
        Ok(selector)
    }

    /// Parses a length's unit: an identifier that must name a known unit,
    /// case-insensitively. Only the pixel unit is recognized.
    pub fn parse_unit(&mut self) -> (r: Result<Unit, ParseError>)
        requires
            old(self).wf(),
        ensures
            final(self).input@ == old(self).input@,
            final(self).wf(),
            ({
                let s = old(self).input@;
                let p = old(self).position as int;
                match sp_unit(s, p) {
                    Ok(u) => r == Ok::<Unit, ParseError>(u.0) && final(self).position as int
                        == u.1,
                    Err(ev) => (r matches Err(pe) && pe.kind == ev.kind && pe.offset as int
                        == byte_pos(s, ev.pos)) && final(self).position as int == (if p
                        <= s.len() {
                        scan_end(s, p, CharClass::Ident)
                    } else {
                        p
                    }),
                }
            }),
    {
        let ghost s = self.input@;
        let start = self.current_position();
        let ident = match self.parse_identifier() {
            Ok(x) => x,
            Err(_) => {
                proof {
                    assert(false);
                }
                return Err(ParseError { offset: 0, kind: ParseErrorKind::UnrecognizedUnit });
            },
        };
        let ic = chars_of(ident.as_str());
        let is_px = ic.len() == 2 && (ic[0] == 'p' || ic[0] == 'P') && (ic[1] == 'x' || ic[1]
            == 'X');
        if is_px {
            Ok(Unit::Px)
        } else {
            let off = self.error_offset(start);
            Err(ParseError { offset: off, kind: ParseErrorKind::UnrecognizedUnit })
        }
    }

    /// Parses one hexadecimal digit pair at the current position into its
    /// byte value.
    pub fn parse_hex_pair(&mut self) -> (r: Result<u8, ParseError>)
        requires
            old(self).wf(),
        ensures
            final(self).input@ == old(self).input@,
            final(self).wf(),
            ({
                let s = old(self).input@;
                let p = old(self).position as int;
                if hex_run_ok(s, p, 2) {
                    &&& (r matches Ok(b) && b as int == hex_pair_val(s, p))
                    &&& final(self).position as int == p + 2
                } else {
                    r matches Err(pe) && pe.kind == ParseErrorKind::MalformedHexColor
                        && pe.offset as int == byte_pos(s, clamp_pos(s, hex_bad_pos(s, p, 2)))
                }
            }),
    {
        let ghost s = self.input@;
        let p = self.current_position();
        let n = self.input.len();
        proof {
            assert(hex_run_ok(s, p + 2, 0));
            assert(hex_run_ok(s, p + 1, 1) == (0 <= p + 1 < s.len() && is_hex_char(s[p + 1])
                && hex_run_ok(s, p + 2, 0)));
            assert(hex_run_ok(s, p as int, 2) == (0 <= p < s.len() && is_hex_char(s[p as int])
                && hex_run_ok(s, p + 1, 1)));
            assert(!(0 <= p + 1 < s.len() && is_hex_char(s[p + 1])) ==> hex_bad_pos(s, p + 1, 1)
                == p + 1);
            assert(!(0 <= p < s.len() && is_hex_char(s[p as int])) ==> hex_bad_pos(s, p as int, 2)
                == p);
            assert((0 <= p < s.len() && is_hex_char(s[p as int])) ==> hex_bad_pos(s, p as int, 2)
                == hex_bad_pos(s, p + 1, 1));
        }
        if p < n {
            if let Some(h1) = hex_digit(self.input[p]) {
                if p + 1 < n {
                    if let Some(h2) = hex_digit(self.input[p + 1]) {
                        self.set_current_position(p + 2);
                        return Ok(16 * h1 + h2);
                    }
                }
                let off = self.error_offset(p + 1);
                return Err(ParseError { offset: off, kind: ParseErrorKind::MalformedHexColor });
            }
        }
        let off = self.error_offset(p);
        Err(ParseError { offset: off, kind: ParseErrorKind::MalformedHexColor })
    }

    /// Parses a color: the character at the current position (the `#`
    /// introducer) followed by three hexadecimal digit pairs; the alpha
    /// channel is fixed at 255.
    pub fn parse_color(&mut self) -> (r: Result<Value, ParseError>)
        requires
            old(self).wf(),
        ensures
            final(self).input@ == old(self).input@,
            final(self).wf(),
            ({
                let s = old(self).input@;
                let p = old(self).position as int;
                match sp_color(s, p) {
                    Ok(v) => (r matches Ok(val) && val@ == v.0) && final(self).position as int
                        == v.1,
                    Err(ev) => r matches Err(pe) && pe.kind == ev.kind && pe.offset as int
                        == byte_pos(s, clamp_pos(s, ev.pos)),
                }
            }),
    {
        let ghost s = self.input@;
        let ghost p = self.position as int;
        match self.consume_char() {
            Ok(_) => {},
            Err(_) => {
                let off = self.error_offset(self.current_position());
                return Err(ParseError { offset: off, kind: ParseErrorKind::MalformedHexColor });
            },
        }
        let red = match self.parse_hex_pair() {
            Ok(x) => x,
            Err(e) => {
                return Err(e);
            },
        };
        let green = match self.parse_hex_pair() {
            Ok(x) => x,
            Err(e) => {
                return Err(e);
            },
        };
        let blue = match self.parse_hex_pair() {
            Ok(x) => x,
            Err(e) => {
                return Err(e);
            },
        };
        Ok(Value::ColorValue(Color { r: red, g: green, b: blue, a: 255 }))
    }
}

/// The digits of a partly stripped numeric literal: the integer part and
/// the fractional digits up to `fe`.
pub open spec fn number_digits_to(t: Seq<char>, k: int, fe: int) -> Seq<char> {
    if k >= t.len() {
        t
    } else {
        t.subrange(0, k) + t.subrange(k + 1, fe)
    }
}

impl CssParser {
    /// Parses the numeric portion of a length at the current position
    /// into an exact decimal, checking the `digit+ ('.' digit+)?` shape
    /// and the representable range.
    #[verifier::rlimit(60)]
    #[verifier::loop_isolation(false)]
    pub fn parse_number(&mut self) -> (r: Result<Decimal, ParseError>)
        requires
            old(self).wf(),
        ensures
            final(self).input@ == old(self).input@,
            final(self).wf(),
            ({
                let s = old(self).input@;
                let p = old(self).position as int;
                match sp_number(s, p) {
                    Ok(n) => r == Ok::<Decimal, ParseError>(n.0) && final(self).position as int
                        == n.1,
                    Err(ev) => r matches Err(pe) && pe.kind == ev.kind && pe.offset as int
                        == byte_pos(s, clamp_pos(s, ev.pos)),
                }
            }),
    {
        let ghost s = self.input@;
        let start = self.current_position();
        let num_str = match self.consume_while(CharClass::Number) {
            Ok(x) => x,
            Err(_) => {
                proof {
                    assert(false);
                }
                return Err(ParseError { offset: 0, kind: ParseErrorKind::MalformedNumber });
            },
        };
        let t = chars_of(num_str.as_str());
        let ghost tv = t@;
        let tn = t.len();
        let k = scan_class(&t, 0, CharClass::Digit);
        let mut ok = k > 0;
        if ok && k < tn {
            if t[k] == '.' && k + 1 < tn {
                let k2 = scan_class(&t, k + 1, CharClass::Digit);
                ok = k2 == tn;
            } else {
                ok = false;
            }
        }
        if !ok {
            let off = self.error_offset(start);
            return Err(ParseError { offset: off, kind: ParseErrorKind::MalformedNumber });
        }
        proof {
            assert(valid_number(tv));
            lemma_scan_end(tv, 0, CharClass::Digit);
            if (k as int) < tv.len() {
                lemma_scan_end(tv, k + 1, CharClass::Digit);
            }
        }
        // Strip trailing zeros of the fractional part; the canonical
        // decimal is unchanged.
        let mut fe = tn;
        let ghost raw_digits = number_digits(tv);
        let ghost raw_frac = number_frac_len(tv);
        if k < tn {
            proof {
                assert(number_digits_to(tv, k as int, tn as int) =~= raw_digits);
            }
            while fe > k + 1 && t[fe - 1] as u32 == 0x30
                invariant
                    k + 1 <= fe <= tn,
                    canon_decimal(dec_val(raw_digits), raw_frac) == canon_decimal(
                        dec_val(number_digits_to(tv, k as int, fe as int)),
                        fe - (k + 1),
                    ),
                decreases fe,
            {
                let ghost d = number_digits_to(tv, k as int, fe as int);
                proof {
                    lemma_number_digits_to_digits(tv, k as int, fe as int);
                    assert(d.last() == tv[fe - 1]);
                    assert(digit_char_val(d.last()) == 0);
                    assert(d.len() > 0);
                    lemma_canon_step(d, fe - (k + 1));
                    assert(d.drop_last() =~= number_digits_to(tv, k as int, fe - 1));
                }
                fe = fe - 1;
            }
            proof {
                let d = number_digits_to(tv, k as int, fe as int);
                lemma_number_digits_to_digits(tv, k as int, fe as int);
                if fe > k + 1 {
                    assert(d.last() == tv[fe - 1]);
                    assert(digit_char_val(d.last()) != 0);
                }
                lemma_canon_stop(d, fe - (k + 1));
            }
        } else {
            proof {
                assert(number_digits_to(tv, k as int, fe as int) =~= tv);
                assert(raw_digits =~= tv);
                assert(raw_frac == 0);
                lemma_canon_stop(tv, 0);
            }
        }
        // Gather the digits with the decimal point removed.
        let mut digits: Vec<char> = Vec::new();
        let mut i: usize = 0;
        while i < k
            invariant
                i <= k <= tv.len(),
                t@ == tv,
                digits@ == tv.subrange(0, i as int),
            decreases k - i,
        {
            digits.push(t[i]);
            i = i + 1;
            proof {
                assert(digits@ =~= tv.subrange(0, i as int));
            }
        }
        if k < tn {
            let mut j = k + 1;
            while j < fe
                invariant
                    k + 1 <= j <= fe <= tv.len(),
                    t@ == tv,
                    digits@ == tv.subrange(0, k as int) + tv.subrange(k + 1, j as int),
                decreases fe - j,
            {
                digits.push(t[j]);
                j = j + 1;
                proof {
                    assert(digits@ =~= tv.subrange(0, k as int) + tv.subrange(k + 1, j as int));
                }
            }
        }
        let ghost dd = digits@;
        proof {
            if (k as int) < tv.len() {
                assert(dd =~= number_digits_to(tv, k as int, fe as int));
            } else {
                assert(digits@ =~= tv.subrange(0, k as int));
                assert(dd =~= number_digits_to(tv, k as int, fe as int));
            }
            lemma_number_digits_to_digits(tv, k as int, fe as int);
        }
        // Accumulate the mantissa, watching for overflow.
        let mut m: u64 = 0;
        let mut idx: usize = 0;
        while idx < digits.len()
            invariant
                idx <= dd.len(),
                digits@ == dd,
                forall|q: int| 0 <= q < dd.len() ==> is_digit_char(dd[q]),
                m as int == dec_val(dd.take(idx as int)),
                self.wf(),
                self.input@ == s,
            decreases dd.len() - idx,
        {
            let u = digits[idx] as u32;
            let dv = (u - 0x30) as u64;
            proof {
                assert(is_digit_char(dd[idx as int]));
                assert(dv as int == digit_char_val(dd[idx as int]));
                assert(dd.take(idx + 1).drop_last() =~= dd.take(idx as int));
                assert(dd.take(idx + 1).last() == dd[idx as int]);
            }
            if m > (u64::MAX - dv) / 10 {
                proof {
                    assert(dec_val(dd.take(idx + 1)) == m * 10 + dv);
                    assert(m * 10 + dv > u64::MAX) by {
                        let q = (u64::MAX - dv) as int / 10;
                        assert(m as int >= q + 1);
                        assert(10 * q + 9 >= u64::MAX - dv);
                    }
                    lemma_dec_val_prefix(dd, idx + 1);
                }
                let off = self.error_offset(start);
                return Err(ParseError { offset: off, kind: ParseErrorKind::NumberTooLarge });
            }
            m = m * 10 + dv;
            idx = idx + 1;
        }
        proof {
            assert(dd.take(dd.len() as int) =~= dd);
        }
        // The scale is the number of remaining fractional digits.
        let scale_len: usize = if k < tn {
            fe - (k + 1)
        } else {
            0
        };
        if (scale_len as u64) > (u32::MAX as u64) {
            let off = self.error_offset(start);
            return Err(ParseError { offset: off, kind: ParseErrorKind::NumberTooLarge });
        }
        Ok(Decimal { mantissa: m, scale: scale_len as u32 })
    }

    /// Parses a length at the current position: a numeric portion
    /// followed by a unit.
    pub fn parse_length(&mut self) -> (r: Result<Value, ParseError>)
        requires
            old(self).wf(),
        ensures
            final(self).input@ == old(self).input@,
            final(self).wf(),
            ({
                let s = old(self).input@;
                let p = old(self).position as int;
                match sp_length(s, p) {
                    Ok(v) => (r matches Ok(val) && val@ == v.0) && final(self).position as int
                        == v.1,
                    Err(ev) => r matches Err(pe) && pe.kind == ev.kind && pe.offset as int
                        == byte_pos(s, clamp_pos(s, ev.pos)),
                }
            }),
    {
        let d = match self.parse_number() {
            Ok(x) => x,
            Err(e) => {
                return Err(e);
            },
        };
        let u = match self.parse_unit() {
            Ok(x) => x,
            Err(e) => {
                return Err(e);
            },
        };
        Ok(Value::Length(d, u))
    }

    /// Parses a value at the current position: a length when a digit
    /// starts it, a color when `#` starts it, otherwise a keyword.
    pub fn parse_value(&mut self) -> (r: Result<Value, ParseError>)
        requires
            old(self).wf(),
        ensures
            final(self).input@ == old(self).input@,
            final(self).wf(),
            ({
                let s = old(self).input@;
                let p = old(self).position as int;
                match sp_value(s, p) {
                    Ok(v) => (r matches Ok(val) && val@ == v.0) && final(self).position as int
                        == v.1,
                    Err(ev) => r matches Err(pe) && pe.kind == ev.kind && pe.offset as int
                        == byte_pos(s, clamp_pos(s, ev.pos)),
                }
            }),
    {
        let starts_digit = match self.next_char() {
            Ok(c) => crate::parser::class_check(CharClass::Digit, c),
            Err(_) => false,
        };
        if starts_digit {
            return self.parse_length();
        }
        let starts_hash = match self.next_char() {
            Ok(c) => c == '#',
            Err(_) => false,
        };
        if starts_hash {
            return self.parse_color();
        }
        let kw = match self.parse_identifier() {
            Ok(x) => x,
            Err(_) => {
                proof {
                    assert(false);
                }
                return Err(ParseError { offset: 0, kind: ParseErrorKind::MalformedNumber });
            },
        };
        Ok(Value::Keyword(kw))
    }

    /// Parses one declaration at the current position: a property name,
    /// `:`, a value, and a terminating `;`.
    pub fn parse_declaration(&mut self) -> (r: Result<Declaration, ParseError>)
        requires
            old(self).wf(),
        ensures
            final(self).input@ == old(self).input@,
            final(self).wf(),
            ({
                let s = old(self).input@;
                let p = old(self).position as int;
                match sp_declaration(s, p) {
                    Ok(d) => (r matches Ok(decl) && decl@ == d.0) && final(self).position as int
                        == d.1,
                    Err(ev) => r matches Err(pe) && pe.kind == ev.kind && pe.offset as int
                        == byte_pos(s, clamp_pos(s, ev.pos)),
                }
            }),
    {
        let property_name = match self.parse_identifier() {
            Ok(x) => x,
            Err(_) => {
                proof {
                    assert(false);
                }
                return Err(ParseError { offset: 0, kind: ParseErrorKind::ExpectedColon });
            },
        };
        let _ = self.consume_whitespace();
        let p1 = self.current_position();
        let colon_ok = match self.consume_char() {
            Ok(c) => c == ':',
            Err(_) => false,
        };
        if !colon_ok {
            let off = self.error_offset(p1);
            return Err(ParseError { offset: off, kind: ParseErrorKind::ExpectedColon });
        }
        let _ = self.consume_whitespace();
        let value = match self.parse_value() {
            Ok(v) => v,
            Err(e) => {
                return Err(e);
            },
        };
        let _ = self.consume_whitespace();
        let p4 = self.current_position();
        let semi_ok = match self.consume_char() {
            Ok(c) => c == ';',
            Err(_) => false,
        };
        if !semi_ok {
            let off = self.error_offset(p4);
            return Err(ParseError { offset: off, kind: ParseErrorKind::ExpectedSemicolon });
        }
        Ok(Declaration { name: property_name, value })
    }
}

/// Prepends already-parsed declarations to the rest of a block parse.
pub open spec fn sp_prepend_decls(a: Seq<DeclV>, r: Result<(Seq<DeclV>, int), ErrV>) -> Result<
    (Seq<DeclV>, int),
    ErrV,
> {
    match r {
        Ok(x) => Ok((a + x.0, x.1)),
        Err(e) => Err(e),
    }
}

/// Prepends already-parsed selectors to the rest of a selector-list
/// parse.
pub open spec fn sp_prepend_sels(a: Seq<SelectorV>, r: Result<(Seq<SelectorV>, int), ErrV>)
    -> Result<(Seq<SelectorV>, int), ErrV> {
    match r {
        Ok(x) => Ok((a + x.0, x.1)),
        Err(e) => Err(e),
    }
}

/// Prepends already-parsed rules to the rest of a style-sheet parse.
pub open spec fn sp_prepend_rules(a: Seq<RuleV>, r: Result<(Seq<RuleV>, int), ErrV>) -> Result<
    (Seq<RuleV>, int),
    ErrV,
> {
    match r {
        Ok(x) => Ok((a + x.0, x.1)),
        Err(e) => Err(e),
    }
}

impl CssParser {
    /// Parses a declaration block at the current position: `{`, any
    /// number of declarations, `}`.
    #[verifier::loop_isolation(false)]
    pub fn parse_declarations(&mut self) -> (r: Result<Vec<Declaration>, ParseError>)
        requires
            old(self).wf(),
        ensures
            final(self).input@ == old(self).input@,
            final(self).wf(),
            ({
                let s = old(self).input@;
                let p = old(self).position as int;
                match sp_declarations(s, p) {
                    Ok(d) => (r matches Ok(v) && decl_views(v@) == d.0)
                        && final(self).position as int == d.1,
                    Err(ev) => r matches Err(pe) && pe.kind == ev.kind && pe.offset as int
                        == byte_pos(s, clamp_pos(s, ev.pos)),
                }
            }),
    {
        let ghost s = self.input@;
        let ghost p_fn = self.position as int;
        let pstart = self.current_position();
        let open_ok = match self.consume_char() {
            Ok(c) => c == '{',
            Err(_) => false,
        };
        if !open_ok {
            let off = self.error_offset(pstart);
            return Err(ParseError { offset: off, kind: ParseErrorKind::ExpectedBlockOpen });
        }
        let ghost inner0 = self.position as int;
        let mut declarations: Vec<Declaration> = Vec::new();
        proof {
            assert(decl_views(declarations@) =~= Seq::<DeclV>::empty());
            match sp_decls_loop(s, inner0) {
                Ok(x) => {
                    assert(Seq::<DeclV>::empty() + x.0 =~= x.0);
                },
                Err(_) => {},
            }
        }
        loop
            invariant
                self.input@ == s,
                self.position <= s.len(),
                sp_decls_loop(s, inner0) == sp_prepend_decls(
                    decl_views(declarations@),
                    sp_decls_loop(s, self.position as int),
                ),
            decreases s.len() - self.position,
        {
            let ghost cur = self.position as int;
            let _ = self.consume_whitespace();
            let p1 = self.current_position();
            if self.eof() {
                let off = self.error_offset(p1);
                return Err(ParseError { offset: off, kind: ParseErrorKind::UnterminatedBlock });
            }
            let c = match self.next_char() {
                Ok(c) => c,
                Err(_) => {
                    proof {
                        assert(false);
                    }
                    return Err(ParseError { offset: 0, kind: ParseErrorKind::UnterminatedBlock });
                },
            };
            if c == '}' {
                let _ = self.consume_char();
                proof {
                    assert(sp_decls_loop(s, cur) == Ok::<(Seq<DeclV>, int), ErrV>(
                        (Seq::empty(), p1 + 1),
                    ));
                    assert(decl_views(declarations@) + Seq::<DeclV>::empty() =~= decl_views(
                        declarations@,
                    ));
                }
                return Ok(declarations);
            }
            let d = match self.parse_declaration() {
                Ok(x) => x,
                Err(e) => {
                    return Err(e);
                },
            };
            let ghost old_views = decl_views(declarations@);
            let ghost dend = self.position as int;
            declarations.push(d);
            proof {
                assert(decl_views(declarations@) =~= old_views + seq![d@]);
                match sp_decls_loop(s, dend) {
                    Ok(rest) => {
                        assert((old_views + seq![d@]) + rest.0 =~= old_views + (seq![d@]
                            + rest.0));
                    },
                    Err(_) => {},
                }
                lemma_scan_end(s, cur, CharClass::Space);
                lemma_sp_declaration_progress(s, p1 as int);
            }
        }
    }

    /// Parses a comma-separated selector list at the current position and
    /// sorts it by descending specificity (stable, so equal specificities
    /// keep their source order).
    #[verifier::loop_isolation(false)]
    pub fn parse_selectors(&mut self) -> (r: Result<Vec<Selector>, ParseError>)
        requires
            old(self).wf(),
        ensures
            final(self).input@ == old(self).input@,
            final(self).wf(),
            ({
                let s = old(self).input@;
                let p = old(self).position as int;
                match sp_selectors(s, p) {
                    Ok(sels) => (r matches Ok(v) && sel_views(v@) == sort_desc(sels.0))
                        && final(self).position as int == sels.1,
                    Err(ev) => r matches Err(pe) && pe.kind == ev.kind && pe.offset as int
                        == byte_pos(s, clamp_pos(s, ev.pos)),
                }
            }),
    {
        let ghost s = self.input@;
        let ghost p0 = self.position as int;
        let mut selectors: Vec<Selector> = Vec::new();
        proof {
            assert(sel_views(selectors@) =~= Seq::<SelectorV>::empty());
            match sp_selectors(s, p0) {
                Ok(x) => {
                    assert(Seq::<SelectorV>::empty() + x.0 =~= x.0);
                },
                Err(_) => {},
            }
        }
        loop
            invariant
                self.input@ == s,
                sp_selectors(s, p0) == sp_prepend_sels(
                    sel_views(selectors@),
                    sp_selectors(s, self.position as int),
                ),
            decreases s.len() - self.position,
        {
            let ghost cur = self.position as int;
            let sel = match self.parse_simple_selector() {
                Ok(x) => x,
                Err(_) => {
                    proof {
                        assert(false);
                    }
                    return Err(ParseError {
                        offset: 0,
                        kind: ParseErrorKind::UnexpectedCharacterInSelectorList,
                    });
                },
            };
            let ghost old_views = sel_views(selectors@);
            selectors.push(Selector::Simple(sel));
            proof {
                assert(sel_views(selectors@) =~= old_views + seq![
                    SelectorV::Simple(sp_simple_selector(s, cur, sp_empty_selector()).0),
                ]);
            }
            let _ = self.consume_whitespace();
            let p2 = self.current_position();
            match self.next_char() {
                Ok(',') => {
                    let _ = self.consume_char();
                    let _ = self.consume_whitespace();
                    proof {
                        assert(cur <= s.len()) by {
                            if cur > s.len() {
                                assert(sp_simple_selector(s, cur, sp_empty_selector()).1 == cur);
                                assert(scan_end(s, cur, CharClass::Space) == cur);
                            }
                        }
                        lemma_sp_simple_selector_bounds(s, cur, sp_empty_selector());
                        lemma_scan_end(
                            s,
                            sp_simple_selector(s, cur, sp_empty_selector()).1,
                            CharClass::Space,
                        );
                        lemma_scan_end(s, p2 + 1, CharClass::Space);
                        match sp_selectors(s, self.position as int) {
                            Ok(rest) => {
                                assert((old_views + seq![
                                    SelectorV::Simple(
                                        sp_simple_selector(s, cur, sp_empty_selector()).0,
                                    ),
                                ]) + rest.0 =~= old_views + (seq![
                                    SelectorV::Simple(
                                        sp_simple_selector(s, cur, sp_empty_selector()).0,
                                    ),
                                ] + rest.0));
                            },
                            Err(_) => {},
                        }
                    }
                },
                Ok('{') => {
                    proof {
                        assert(sp_selectors(s, cur) == Ok::<(Seq<SelectorV>, int), ErrV>(
                            (
                                seq![
                                    SelectorV::Simple(
                                        sp_simple_selector(s, cur, sp_empty_selector()).0,
                                    ),
                                ],
                                p2 as int,
                            ),
                        ));
                        assert(old_views + seq![
                            SelectorV::Simple(sp_simple_selector(s, cur, sp_empty_selector()).0),
                        ] =~= sel_views(selectors@));
                    }
                    let sorted = sort_selectors(selectors);
                    return Ok(sorted);
                },
                Ok(_) => {
                    let off = self.error_offset(p2);
                    return Err(ParseError {
                        offset: off,
                        kind: ParseErrorKind::UnexpectedCharacterInSelectorList,
                    });
                },
                Err(_) => {
                    proof {
                        assert(sp_selectors(s, cur) == Ok::<(Seq<SelectorV>, int), ErrV>(
                            (
                                seq![
                                    SelectorV::Simple(
                                        sp_simple_selector(s, cur, sp_empty_selector()).0,
                                    ),
                                ],
                                p2 as int,
                            ),
                        ));
                        assert(old_views + seq![
                            SelectorV::Simple(sp_simple_selector(s, cur, sp_empty_selector()).0),
                        ] =~= sel_views(selectors@));
                    }
                    let sorted = sort_selectors(selectors);
                    return Ok(sorted);
                },
            }
        }
    }

    /// Parses one rule at the current position: a selector list and its
    /// declaration block.
    pub fn parse_rule(&mut self) -> (r: Result<Rule, ParseError>)
        requires
            old(self).wf(),
        ensures
            final(self).input@ == old(self).input@,
            final(self).wf(),
            ({
                let s = old(self).input@;
                let p = old(self).position as int;
                match sp_rule(s, p) {
                    Ok(ru) => (r matches Ok(rule) && rule@ == ru.0) && final(self).position as int
                        == ru.1,
                    Err(ev) => r matches Err(pe) && pe.kind == ev.kind && pe.offset as int
                        == byte_pos(s, clamp_pos(s, ev.pos)),
                }
            }),
    {
        let sels = match self.parse_selectors() {
            Ok(x) => x,
            Err(e) => {
                return Err(e);
            },
        };
        let decls = match self.parse_declarations() {
            Ok(x) => x,
            Err(e) => {
                return Err(e);
            },
        };
        let rule = Rule { selectors: sels, declarations: decls };
        proof {
            let s = old(self).input@;
            let p = old(self).position as int;
            match sp_rule(s, p) {
                Ok(ru) => {
                    assert(rule@ =~= ru.0);
                },
                Err(_) => {},
            }
        }
        Ok(rule)
    }

    /// Parses the style-sheet rules at the current position, until the
    /// end of the input.
    #[verifier::loop_isolation(false)]
    pub fn parse_rules(&mut self) -> (r: Result<Vec<Rule>, ParseError>)
        requires
            old(self).wf(),
        ensures
            final(self).input@ == old(self).input@,
            final(self).wf(),
            ({
                let s = old(self).input@;
                let p = old(self).position as int;
                match sp_rules(s, p) {
                    Ok(rs) => (r matches Ok(v) && rule_views(v@) == rs.0)
                        && final(self).position as int == rs.1,
                    Err(ev) => r matches Err(pe) && pe.kind == ev.kind && pe.offset as int
                        == byte_pos(s, clamp_pos(s, ev.pos)),
                }
            }),
    {
        let ghost s = self.input@;
        let ghost p0 = self.position as int;
        let mut rules: Vec<Rule> = Vec::new();
        proof {
            assert(rule_views(rules@) =~= Seq::<RuleV>::empty());
            match sp_rules(s, p0) {
                Ok(x) => {
                    assert(Seq::<RuleV>::empty() + x.0 =~= x.0);
                },
                Err(_) => {},
            }
        }
        loop
            invariant
                self.input@ == s,
                sp_rules(s, p0) == sp_prepend_rules(
                    rule_views(rules@),
                    sp_rules(s, self.position as int),
                ),
            decreases s.len() - self.position,
        {
            let ghost cur = self.position as int;
            let _ = self.consume_whitespace();
            let p1 = self.current_position();
            if self.eof() {
                proof {
                    assert(sp_rules(s, cur) == Ok::<(Seq<RuleV>, int), ErrV>(
                        (Seq::empty(), p1 as int),
                    ));
                    assert(rule_views(rules@) + Seq::<RuleV>::empty() =~= rule_views(rules@));
                }
                return Ok(rules);
            }
            let rule = match self.parse_rule() {
                Ok(x) => x,
                Err(e) => {
                    return Err(e);
                },
            };
            let ghost old_views = rule_views(rules@);
            let ghost rend = self.position as int;
            rules.push(rule);
            proof {
                assert(cur <= s.len()) by {
                    if cur > s.len() {
                        assert(scan_end(s, cur, CharClass::Space) == cur);
                    }
                }
                assert(rule_views(rules@) =~= old_views + seq![rules@.last()@]);
                match sp_rules(s, rend) {
                    Ok(rest) => {
                        assert((old_views + seq![rules@.last()@]) + rest.0 =~= old_views + (seq![
                            rules@.last()@,
                        ] + rest.0));
                    },
                    Err(_) => {},
                }
                lemma_scan_end(s, cur, CharClass::Space);
                lemma_sp_rule_progress(s, p1 as int);
            }
        }
    }
}

/// Parses a whole style sheet. Any grammar failure is fatal: no partial
/// sheet is returned, and the failure carries the byte offset where it
/// was found and the token that was expected there.
pub fn parse(source: String) -> (r: Result<Stylesheet, ParseError>)
    ensures
        match sp_rules(source@, 0) {
            Ok(pr) => r matches Ok(sheet) && sheet@ == pr.0,
            Err(ev) => r matches Err(pe) && pe.kind == ev.kind && pe.offset as int == byte_pos(
                source@,
                ev.pos,
            ),
        },
{
    let mut parser = CssParser::new(source.as_str());
    proof {
        lemma_sp_rules_bounds(source@, 0);
    }
    match parser.parse_rules() {
        Ok(rules) => Ok(Stylesheet { rules }),
        Err(e) => Err(e),
    }
}

/// The digits of a partly stripped numeric literal are all digits.
proof fn lemma_number_digits_to_digits(t: Seq<char>, k: int, fe: int)
    requires
        0 <= k <= t.len(),
        k < t.len() ==> k + 1 <= fe <= t.len(),
        scan_end(t, 0, CharClass::Digit) == k,
        k < t.len() ==> scan_end(t, k + 1, CharClass::Digit) == t.len(),
    ensures
        forall|q: int|
            0 <= q < number_digits_to(t, k, fe).len() ==> is_digit_char(
                number_digits_to(t, k, fe)[q],
            ),
{
    lemma_scan_end(t, 0, CharClass::Digit);
    if k < t.len() {
        lemma_scan_end(t, k + 1, CharClass::Digit);
    }
    let d = number_digits_to(t, k, fe);
    assert forall|q: int| 0 <= q < d.len() implies is_digit_char(d[q]) by {
        if k >= t.len() {
            assert(d[q] == t[q]);
        } else if q < k {
            assert(d[q] == t[q]);
        } else {
            assert(d[q] == t[q + 1]);
        }
    }
}

/// One hexadecimal digit's value, or nothing for any other character.
fn hex_digit(c: char) -> (r: Option<u8>)
    ensures
        match r {
            Some(v) => is_hex_char(c) && v as int == hex_char_val(c),
            None => !is_hex_char(c),
        },
{
    let u = c as u32;
    if 0x30 <= u && u <= 0x39 {
        Some((u - 0x30) as u8)
    } else if 0x61 <= u && u <= 0x66 {
        Some((u - 0x57) as u8)
    } else if 0x41 <= u && u <= 0x46 {
        Some((u - 0x37) as u8)
    } else {
        None
    }
}

/// Whether a character may appear in an identifier of the style grammar.
pub fn valid_identifier_char(c: char) -> (r: bool)
    ensures
        r == is_ident_char(c),
{
    crate::parser::class_check(CharClass::Ident, c)
}

/// The style-sheet parse stays in the input; failures point into it.
pub proof fn lemma_sp_rules_bounds(s: Seq<char>, p: int)
    requires
        0 <= p <= s.len(),
    ensures
        match sp_rules(s, p) {
            Ok(r) => p <= r.1 <= s.len(),
            Err(e) => 0 <= e.pos <= s.len(),
        },
    decreases s.len() - p,
{
    lemma_scan_end(s, p, CharClass::Space);
    let p1 = scan_end(s, p, CharClass::Space);
    if 0 <= p1 && p1 < s.len() {
        lemma_sp_rule_progress(s, p1);
        match sp_rule(s, p1) {
            Ok(r) => {
                lemma_sp_rules_bounds(s, r.1);
            },
            Err(_) => {},
        }
    }
}

} // verus!
