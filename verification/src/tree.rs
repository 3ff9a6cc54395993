//! ## Regular expression search: the parse tree
//! The nodes of the tree built from a regular expression, their matching tests, and their
//! housekeeping methods. The parsers that build the tree are in **parse** and **alt_parse**.
use vstd::prelude::*;

use crate::limits::Limits;
use crate::text::{byte_pos, char_width, utf8_width, Text};

verus! {

/// Node acts as a common wrapper for the different XXXNode struct
/// types: CharsNode, SpecialNode, RangeNode, AndNode, OrNode and DefNode.
/// Besides serving like a Box to hold the different XXXNode structs it
/// also functions to distribute messages to the proper XXXNode.
/// **Empty** stands for "no node": it is used while parsing and never stays in a finished tree.
#[derive(PartialEq, Debug)]
pub enum Node {
    Chars(CharsNode),
    And(AndNode),
    Or(OrNode),
    Range(RangeNode),
    Special(SpecialNode),
    Def(DefNode),
    Empty,
}

/// represents strings of regular characters that match themselves in the target string. This is a leaf node in the parse tree.
#[derive(PartialEq, Debug)]
pub struct CharsNode {
    /// the repetition counts that are accepted in a match.
    pub limits: Limits,
    /// If None then this is not recorded. If Some("") it is recorded
    /// but unnamed, otherwise holds the name to reference the match.
    pub named: Option<Vec<char>>,
    /// The string to match. It must match exactly.
    pub string: Vec<char>,
    /// whether each repetition is named (false), or the name refers to all the repetitions (true)
    pub name_outside: bool,
}

/// Represents special character codes, such as \d for digits, . for anything, etc.
#[derive(PartialEq, Debug)]
pub struct SpecialNode {
    /// the repetition counts that are accepted in a match.
    pub limits: Limits,
    /// If None then this is not recorded. If Some("") it is recorded
    /// but unnamed, otherwise holds the name to reference the match.
    pub named: Option<Vec<char>>,
    /// The character that is special: '.', '$', or the letter of an escape code
    pub special: char,
    /// whether each repetition is named (false), or the name refers to all the repetitions (true)
    pub name_outside: bool,
}

/// **Range** is used to represent a single range in a RangeNode
/// set. The sets are of the form [abj-mxyz], where "j-m" represents
/// any character between 'j' and 'm' inclusive.
#[derive(PartialEq, Debug, Clone, Copy)]
pub struct Range {
    pub from: char,
    pub to: char,
}

/// Represents a character that is a member of, or is not a member of, a particular set.
#[derive(PartialEq, Debug)]
pub struct RangeNode {
    /// the repetition counts that are accepted in a match.
    pub limits: Limits,
    /// If None then this is not recorded. If Some("") it is recorded
    /// but unnamed, otherwise holds the name to reference the match.
    pub named: Option<Vec<char>>,
    /// whether the character should match if it is in the set (false) or not in the set (true)
    pub not: bool,
    /// the individual characters in the set
    pub chars: Vec<char>,
    /// the character ranges in the set
    pub ranges: Vec<Range>,
    /// the special character codes in the set
    pub specials: Vec<char>,
    /// whether each repetition is named (false), or the name refers to all the repetitions (true)
    pub name_outside: bool,
}

/// handles AND (sequential) matches: this node represents a branch in the parse tree
#[derive(PartialEq, Debug)]
pub struct AndNode {
    /// the repetition counts that are accepted in a match.
    pub limits: Limits,
    /// If None then this is not recorded. If Some("") it is recorded
    /// but unnamed, otherwise holds the name to reference the match.
    pub named: Option<Vec<char>>,
    /// An array of child nodes that must all be satisfied for the AND to succeed
    pub nodes: Vec<Node>,
    /// whether the match is anchored to the beginning of the text
    pub anchor: bool,
    /// whether each repetition is named (false), or the name refers to all the repetitions (true)
    pub name_outside: bool,
}

/// handles OR nodes (A\|B style matches). This node represents a branch in the parse tree
#[derive(PartialEq, Debug)]
pub struct OrNode {
    /// An array of child nodes one of which must be satisfied for the walk to succeed
    pub nodes: Vec<Node>,
    /// the repetition counts that are accepted in a match.
    pub limits: Limits,
    /// If None then this is not recorded. If Some("") it is recorded
    /// but unnamed, otherwise holds the name to reference the match.
    pub named: Option<Vec<char>>,
    /// whether each repetition is named (false), or the name refers to all the repetitions (true)
    pub name_outside: bool,
}

/// A reference to a snippet definition (alternative parser only). Until the definitions are
/// substituted **node** is **Empty**; afterwards it holds a copy of the definition.
#[derive(PartialEq, Debug)]
pub struct DefNode {
    /// Name of the snippet
    pub name: Vec<char>,
    /// Subtree giving the snippet
    pub node: Box<Node>,
    /// the repetition counts that are accepted in a match.
    pub limits: Limits,
    /// If None then this is not recorded. If Some("") it is recorded
    /// but unnamed, otherwise holds the name to reference the match.
    pub named: Option<Vec<char>>,
    /// whether each repetition is named (false), or the name refers to all the repetitions (true)
    pub name_outside: bool,
}

/// A node as the parsers build it: no **Empty** node anywhere, every AND and OR node has at least
/// one child, and every definition reference still waits for its definition.
pub open spec fn node_unresolved(n: Node) -> bool
    decreases n,
{
    match n {
        Node::And(a) => a.nodes.len() > 0 && all_unresolved(a.nodes@),
        Node::Or(o) => o.nodes.len() > 0 && all_unresolved(o.nodes@),
        Node::Def(d) => *d.node == Node::Empty,
        Node::Empty => false,
        _ => true,
    }
}

/// Every node of **s** is as the parsers build it.
pub open spec fn all_unresolved(s: Seq<Node>) -> bool
    decreases s,
{
    if s.len() == 0 {
        true
    } else {
        node_unresolved(s[0]) && all_unresolved(s.drop_first())
    }
}

/// A finished tree, ready to walk: no **Empty** node anywhere, every AND and OR node has at least
/// one child, and every definition reference holds its (finished) definition.
pub open spec fn node_resolved(n: Node) -> bool
    decreases n,
{
    match n {
        Node::And(a) => a.nodes.len() > 0 && all_resolved(a.nodes@),
        Node::Or(o) => o.nodes.len() > 0 && all_resolved(o.nodes@),
        Node::Def(d) => node_resolved(*d.node),
        Node::Empty => false,
        _ => true,
    }
}

/// Every node of **s** is finished.
pub open spec fn all_resolved(s: Seq<Node>) -> bool
    decreases s,
{
    if s.len() == 0 {
        true
    } else {
        node_resolved(s[0]) && all_resolved(s.drop_first())
    }
}

/// **all_unresolved** holds exactly when each element is as the parsers build it.
pub proof fn lemma_all_unresolved(s: Seq<Node>)
    ensures
        all_unresolved(s) <==> forall|i: int| 0 <= i < s.len() ==> #[trigger] node_unresolved(s[i]),
    decreases s.len(),
{
    if s.len() > 0 {
        lemma_all_unresolved(s.drop_first());
        if forall|i: int| 0 <= i < s.len() ==> #[trigger] node_unresolved(s[i]) {
            assert forall|i: int| 0 <= i < s.drop_first().len() implies #[trigger] node_unresolved(s.drop_first()[i]) by {
                assert(node_unresolved(s[i + 1]));
            }
            assert(node_unresolved(s[0]));
            assert(all_unresolved(s.drop_first()));
            assert(all_unresolved(s));
        }
        if all_unresolved(s) {
            assert forall|i: int| 0 <= i < s.len() implies #[trigger] node_unresolved(s[i]) by {
                if i > 0 {
                    assert(node_unresolved(s.drop_first()[i - 1]));
                }
            }
        }
    }
}

/// **all_resolved** holds exactly when each element is finished.
pub proof fn lemma_all_resolved(s: Seq<Node>)
    ensures
        all_resolved(s) <==> forall|i: int| 0 <= i < s.len() ==> #[trigger] node_resolved(s[i]),
    decreases s.len(),
{
    if s.len() > 0 {
        lemma_all_resolved(s.drop_first());
        if forall|i: int| 0 <= i < s.len() ==> #[trigger] node_resolved(s[i]) {
            assert forall|i: int| 0 <= i < s.drop_first().len() implies #[trigger] node_resolved(s.drop_first()[i]) by {
                assert(node_resolved(s[i + 1]));
            }
            assert(node_resolved(s[0]));
            assert(all_resolved(s.drop_first()));
            assert(all_resolved(s));
        }
        if all_resolved(s) {
            assert forall|i: int| 0 <= i < s.len() implies #[trigger] node_resolved(s[i]) by {
                if i > 0 {
                    assert(node_resolved(s.drop_first()[i - 1]));
                }
            }
        }
    }
}

/// The Limits of a node (those of Empty are the default ones).
pub open spec fn node_limits(n: Node) -> Limits {
    match n {
        Node::Chars(a) => a.limits,
        Node::Special(a) => a.limits,
        Node::Range(a) => a.limits,
        Node::And(a) => a.limits,
        Node::Or(a) => a.limits,
        Node::Def(a) => a.limits,
        Node::Empty => Limits::spec_default(),
    }
}

/// The name of a node (None for Empty).
pub open spec fn node_named(n: Node) -> Option<Vec<char>> {
    match n {
        Node::Chars(a) => a.named,
        Node::Special(a) => a.named,
        Node::Range(a) => a.named,
        Node::And(a) => a.named,
        Node::Or(a) => a.named,
        Node::Def(a) => a.named,
        Node::Empty => None,
    }
}

/// The name-placement flag of a node (false for Empty).
pub open spec fn node_name_outside(n: Node) -> bool {
    match n {
        Node::Chars(a) => a.name_outside,
        Node::Special(a) => a.name_outside,
        Node::Range(a) => a.name_outside,
        Node::And(a) => a.name_outside,
        Node::Or(a) => a.name_outside,
        Node::Def(a) => a.name_outside,
        Node::Empty => false,
    }
}

/// The view of an optional name as an optional character sequence.
pub open spec fn name_view(n: Option<Vec<char>>) -> Option<Seq<char>> {
    match n {
        Some(v) => Some(v@),
        None => None,
    }
}

/// What a node holds, with its strings and children as sequences: the model of a parse tree
/// that the parsers' contracts speak of.
pub enum Shape {
    Chars { string: Seq<char>, limits: Limits, named: Option<Seq<char>>, name_outside: bool },
    And { nodes: Seq<Shape>, limits: Limits, named: Option<Seq<char>>, anchor: bool, name_outside: bool },
    Or { nodes: Seq<Shape>, limits: Limits, named: Option<Seq<char>>, name_outside: bool },
    Range {
        not: bool,
        chars: Seq<char>,
        ranges: Seq<Range>,
        specials: Seq<char>,
        limits: Limits,
        named: Option<Seq<char>>,
        name_outside: bool,
    },
    Special { special: char, limits: Limits, named: Option<Seq<char>>, name_outside: bool },
    Def { name: Seq<char>, node: Box<Shape>, limits: Limits, named: Option<Seq<char>>, name_outside: bool },
    Empty,
}

/// The shape of a node.
pub open spec fn shape(n: Node) -> Shape
    decreases n,
{
    match n {
        Node::Chars(c) => Shape::Chars { string: c.string@, limits: c.limits, named: name_view(c.named), name_outside: c.name_outside },
        Node::And(a) => Shape::And {
            nodes: shapes(a.nodes@),
            limits: a.limits,
            named: name_view(a.named),
            anchor: a.anchor,
            name_outside: a.name_outside,
        },
        Node::Or(o) => Shape::Or { nodes: shapes(o.nodes@), limits: o.limits, named: name_view(o.named), name_outside: o.name_outside },
        Node::Range(r) => Shape::Range {
            not: r.not,
            chars: r.chars@,
            ranges: r.ranges@,
            specials: r.specials@,
            limits: r.limits,
            named: name_view(r.named),
            name_outside: r.name_outside,
        },
        Node::Special(s) => Shape::Special { special: s.special, limits: s.limits, named: name_view(s.named), name_outside: s.name_outside },
        Node::Def(d) => Shape::Def {
            name: d.name@,
            node: Box::new(shape(*d.node)),
            limits: d.limits,
            named: name_view(d.named),
            name_outside: d.name_outside,
        },
        Node::Empty => Shape::Empty,
    }
}

/// The shapes of a sequence of nodes.
pub open spec fn shapes(s: Seq<Node>) -> Seq<Shape>
    decreases s,
{
    if s.len() == 0 {
        Seq::empty()
    } else {
        seq![shape(s[0])] + shapes(s.drop_first())
    }
}

/// **shapes** maps each node to its shape.
pub proof fn lemma_shapes(s: Seq<Node>)
    ensures
        shapes(s).len() == s.len(),
        forall|i: int| 0 <= i < s.len() ==> #[trigger] shapes(s)[i] == shape(s[i]),
    decreases s.len(),
{
    if s.len() > 0 {
        lemma_shapes(s.drop_first());
        assert forall|i: int| 0 <= i < s.len() implies #[trigger] shapes(s)[i] == shape(s[i]) by {
            if i > 0 {
                assert(shapes(s)[i] == shapes(s.drop_first())[i - 1]);
                assert(s.drop_first()[i - 1] == s[i]);
            }
        }
    }
}

/// The shapes of a sequence with one more node.
pub proof fn lemma_shapes_push(s: Seq<Node>, n: Node)
    ensures
        shapes(s.push(n)) == shapes(s).push(shape(n)),
{
    lemma_shapes(s);
    lemma_shapes(s.push(n));
    assert(shapes(s.push(n)) =~= shapes(s).push(shape(n)));
}

/// The shapes of two sequences put together.
pub proof fn lemma_shapes_add(s: Seq<Node>, t: Seq<Node>)
    ensures
        shapes(s + t) == shapes(s) + shapes(t),
{
    lemma_shapes(s);
    lemma_shapes(t);
    lemma_shapes(s + t);
    assert(shapes(s + t) =~= shapes(s) + shapes(t));
}

/// A node and its shape are of the same kind.
pub proof fn lemma_shape_kind(n: Node)
    ensures
        (shape(n) is Chars) == (n is Chars),
        (shape(n) is And) == (n is And),
        (shape(n) is Or) == (n is Or),
        (shape(n) is Range) == (n is Range),
        (shape(n) is Special) == (n is Special),
        (shape(n) is Def) == (n is Def),
        (shape(n) is Empty) == (n is Empty),
{
}

/// The shape **sh** with its Limits replaced by **l** (Empty stays Empty).
pub open spec fn shape_with_limits(sh: Shape, l: Limits) -> Shape {
    match sh {
        Shape::Chars { string, limits, named, name_outside } => Shape::Chars { string, limits: l, named, name_outside },
        Shape::And { nodes, limits, named, anchor, name_outside } => Shape::And { nodes, limits: l, named, anchor, name_outside },
        Shape::Or { nodes, limits, named, name_outside } => Shape::Or { nodes, limits: l, named, name_outside },
        Shape::Range { not, chars, ranges, specials, limits, named, name_outside } => Shape::Range {
            not,
            chars,
            ranges,
            specials,
            limits: l,
            named,
            name_outside,
        },
        Shape::Special { special, limits, named, name_outside } => Shape::Special { special, limits: l, named, name_outside },
        Shape::Def { name, node, limits, named, name_outside } => Shape::Def { name, node, limits: l, named, name_outside },
        Shape::Empty => Shape::Empty,
    }
}

/// The shape **sh** with its name and name-placement flag replaced (Empty stays Empty).
pub open spec fn shape_with_name(sh: Shape, nm: Option<Seq<char>>, o: bool) -> Shape {
    match sh {
        Shape::Chars { string, limits, named, name_outside } => Shape::Chars { string, limits, named: nm, name_outside: o },
        Shape::And { nodes, limits, named, anchor, name_outside } => Shape::And { nodes, limits, named: nm, anchor, name_outside: o },
        Shape::Or { nodes, limits, named, name_outside } => Shape::Or { nodes, limits, named: nm, name_outside: o },
        Shape::Range { not, chars, ranges, specials, limits, named, name_outside } => Shape::Range {
            not,
            chars,
            ranges,
            specials,
            limits,
            named: nm,
            name_outside: o,
        },
        Shape::Special { special, limits, named, name_outside } => Shape::Special { special, limits, named: nm, name_outside: o },
        Shape::Def { name, node, limits, named, name_outside } => Shape::Def { name, node, limits, named: nm, name_outside: o },
        Shape::Empty => Shape::Empty,
    }
}

/// The name of a shape (None for Empty).
pub open spec fn shape_named(sh: Shape) -> Option<Seq<char>> {
    match sh {
        Shape::Chars { named, .. } => named,
        Shape::And { named, .. } => named,
        Shape::Or { named, .. } => named,
        Shape::Range { named, .. } => named,
        Shape::Special { named, .. } => named,
        Shape::Def { named, .. } => named,
        Shape::Empty => None,
    }
}

/// The name of a node's shape is the node's name.
pub proof fn lemma_shape_named(n: Node)
    ensures
        shape_named(shape(n)) == name_view(node_named(n)),
{
}

/// The shape of a copy: the copies of AND, OR and definition nodes do not keep the
/// name-placement flag.
pub open spec fn copy_shape(sh: Shape) -> Shape
    decreases sh,
{
    match sh {
        Shape::And { nodes, limits, named, anchor, name_outside } => Shape::And {
            nodes: copy_shapes(nodes),
            limits,
            named,
            anchor,
            name_outside: false,
        },
        Shape::Or { nodes, limits, named, name_outside } => Shape::Or { nodes: copy_shapes(nodes), limits, named, name_outside: false },
        Shape::Def { name, node, limits, named, name_outside } => Shape::Def {
            name,
            node: Box::new(copy_shape(*node)),
            limits,
            named,
            name_outside: false,
        },
        _ => sh,
    }
}

/// The shapes of copies of the shapes **s**.
pub open spec fn copy_shapes(s: Seq<Shape>) -> Seq<Shape>
    decreases s,
{
    if s.len() == 0 {
        Seq::empty()
    } else {
        seq![copy_shape(s[0])] + copy_shapes(s.drop_first())
    }
}

/// **copy_shapes** copies each shape.
pub proof fn lemma_copy_shapes(s: Seq<Shape>)
    ensures
        copy_shapes(s).len() == s.len(),
        forall|i: int| 0 <= i < s.len() ==> #[trigger] copy_shapes(s)[i] == copy_shape(s[i]),
    decreases s.len(),
{
    if s.len() > 0 {
        lemma_copy_shapes(s.drop_first());
        assert forall|i: int| 0 <= i < s.len() implies #[trigger] copy_shapes(s)[i] == copy_shape(s[i]) by {
            if i > 0 {
                assert(copy_shapes(s)[i] == copy_shapes(s.drop_first())[i - 1]);
                assert(s.drop_first()[i - 1] == s[i]);
            }
        }
    }
}

/// A tree with no definition reference in it (the traditional parser builds such trees).
pub open spec fn def_free(n: Node) -> bool
    decreases n,
{
    match n {
        Node::And(a) => all_def_free(a.nodes@),
        Node::Or(o) => all_def_free(o.nodes@),
        Node::Def(_) => false,
        _ => true,
    }
}

/// No node of **s** holds a definition reference.
pub open spec fn all_def_free(s: Seq<Node>) -> bool
    decreases s,
{
    if s.len() == 0 {
        true
    } else {
        def_free(s[0]) && all_def_free(s.drop_first())
    }
}

/// **all_def_free** holds exactly when each element is free of definition references.
pub proof fn lemma_all_def_free(s: Seq<Node>)
    ensures
        all_def_free(s) <==> forall|i: int| 0 <= i < s.len() ==> #[trigger] def_free(s[i]),
    decreases s.len(),
{
    if s.len() > 0 {
        lemma_all_def_free(s.drop_first());
        if forall|i: int| 0 <= i < s.len() ==> #[trigger] def_free(s[i]) {
            assert forall|i: int| 0 <= i < s.drop_first().len() implies #[trigger] def_free(s.drop_first()[i]) by {
                assert(def_free(s[i + 1]));
            }
            assert(def_free(s[0]));
        }
        if all_def_free(s) {
            assert forall|i: int| 0 <= i < s.len() implies #[trigger] def_free(s[i]) by {
                if i > 0 {
                    assert(def_free(s.drop_first()[i - 1]));
                }
            }
        }
    }
}

/// Two sequences of nodes whose nodes have the same shapes, one by one, have the same shapes.
pub proof fn lemma_shapes_pointwise(s: Seq<Node>, t: Seq<Node>)
    requires
        s.len() == t.len(),
        forall|i: int| 0 <= i < s.len() ==> #[trigger] shape(s[i]) == shape(t[i]),
    ensures
        shapes(s) == shapes(t),
{
    lemma_shapes(s);
    lemma_shapes(t);
    assert(shapes(s) =~= shapes(t));
}

/// A node equal to **n** except for its name and its name-placement flag.
pub open spec fn same_but_name(n: Node, m: Node) -> bool {
    match (n, m) {
        (Node::Chars(a), Node::Chars(b)) => a.limits == b.limits && a.string@ == b.string@,
        (Node::Special(a), Node::Special(b)) => a.limits == b.limits && a.special == b.special,
        (Node::Range(a), Node::Range(b)) => a.limits == b.limits && a.not == b.not && a.chars@ == b.chars@
            && a.ranges@ == b.ranges@ && a.specials@ == b.specials@,
        (Node::And(a), Node::And(b)) => a.limits == b.limits && a.nodes == b.nodes && a.anchor == b.anchor,
        (Node::Or(a), Node::Or(b)) => a.limits == b.limits && a.nodes == b.nodes,
        (Node::Def(a), Node::Def(b)) => a.limits == b.limits && a.name@ == b.name@ && a.node == b.node,
        _ => false,
    }
}

/// A node equal to **n** except for its Limits.
pub open spec fn same_but_limits(n: Node, m: Node) -> bool {
    match (n, m) {
        (Node::Chars(a), Node::Chars(b)) => a.named == b.named && a.name_outside == b.name_outside && a.string@ == b.string@,
        (Node::Special(a), Node::Special(b)) => a.named == b.named && a.name_outside == b.name_outside && a.special == b.special,
        (Node::Range(a), Node::Range(b)) => a.named == b.named && a.name_outside == b.name_outside && a.not == b.not
            && a.chars@ == b.chars@ && a.ranges@ == b.ranges@ && a.specials@ == b.specials@,
        (Node::And(a), Node::And(b)) => a.named == b.named && a.name_outside == b.name_outside && a.nodes == b.nodes && a.anchor == b.anchor,
        (Node::Or(a), Node::Or(b)) => a.named == b.named && a.name_outside == b.name_outside && a.nodes == b.nodes,
        (Node::Def(a), Node::Def(b)) => a.named == b.named && a.name_outside == b.name_outside && a.name@ == b.name@ && a.node == b.node,
        _ => false,
    }
}

/// Whether **c** is the letter of one of the escape codes with a special meaning (\a, \d, \l, \u, \o, \w, \x).
pub open spec fn is_escape_code(c: char) -> bool {
    c == 'a' || c == 'd' || c == 'l' || c == 'u' || c == 'o' || c == 'w' || c == 'x'
}

/// Whether the special code **sp** accepts the character **ch**.
pub open spec fn special_accepts(sp: char, ch: char) -> bool {
    if sp == '.' {
        true
    } else if sp == 'a' {
        ' ' <= ch && ch <= '~'
    } else if sp == 'd' {
        '0' <= ch && ch <= '9'
    } else if sp == 'l' {
        'a' <= ch && ch <= 'z'
    } else if sp == 'n' {
        ch == '\n'
    } else if sp == 't' {
        ch == '\t'
    } else if sp == 'o' {
        '0' <= ch && ch <= '7'
    } else if sp == 'u' {
        'A' <= ch && ch <= 'Z'
    } else if sp == 'w' {
        ch == ' ' || ch == '\t' || ch == '\n'
    } else if sp == 'x' {
        ('A' <= ch && ch <= 'F') || ('a' <= ch && ch <= 'f') || ('0' <= ch && ch <= '9')
    } else {
        false
    }
}

/// Whether the special code **sp** matches at character position **pos** of **text**: '$' matches
/// only at the end, every other code needs a character that it accepts.
pub open spec fn special_at(sp: char, text: Seq<char>, pos: int) -> bool {
    if 0 <= pos < text.len() {
        special_accepts(sp, text[pos])
    } else {
        sp == '$'
    }
}

/// What each special code accepts at a place in the text, as the code's documentation lists it:
/// '.' any character; \a the printable ASCII characters, code points 0x20 to 0x7E; \d the ten
/// decimal digits; \l the 26 lowercase ASCII letters (0x61 to 0x7A); \u the 26 uppercase ones
/// (0x41 to 0x5A); \o the eight octal digits; \x the hexadecimal digits of either case; \w
/// space, tab and newline; \n newline; \t tab. '$' accepts no character: it matches only at the
/// end of the text, where no other code matches.
pub proof fn law_special_codes(text: Seq<char>, pos: int)
    requires
        0 <= pos < text.len(),
    ensures
        special_at('.', text, pos),
        special_at('a', text, pos) <==> 0x20 <= (text[pos] as int) <= 0x7e,
        special_at('d', text, pos) <==> (text[pos] == '0' || text[pos] == '1' || text[pos] == '2' || text[pos] == '3'
            || text[pos] == '4' || text[pos] == '5' || text[pos] == '6' || text[pos] == '7' || text[pos] == '8'
            || text[pos] == '9'),
        special_at('l', text, pos) <==> 0x61 <= (text[pos] as int) <= 0x7a,
        special_at('u', text, pos) <==> 0x41 <= (text[pos] as int) <= 0x5a,
        special_at('o', text, pos) <==> (text[pos] == '0' || text[pos] == '1' || text[pos] == '2' || text[pos] == '3'
            || text[pos] == '4' || text[pos] == '5' || text[pos] == '6' || text[pos] == '7'),
        special_at('x', text, pos) <==> (0x30 <= (text[pos] as int) <= 0x39 || 0x41 <= (text[pos] as int) <= 0x46
            || 0x61 <= (text[pos] as int) <= 0x66),
        special_at('w', text, pos) <==> (text[pos] == ' ' || text[pos] == '\t' || text[pos] == '\n'),
        special_at('n', text, pos) <==> text[pos] == '\n',
        special_at('t', text, pos) <==> text[pos] == '\t',
        !special_at('$', text, pos),
        forall|sp: char| #[trigger] special_at(sp, text, text.len() as int) <==> sp == '$',
{
}

/// The first character of the lowercase form of **c** (None if the lowercase form is empty).
pub uninterp spec fn lowercase_first(c: char) -> Option<char>;

/// The lowercase form of the string **s**.
pub uninterp spec fn lowercase_string(s: Seq<char>) -> Seq<char>;

/// Returns the first character of the lowercase form of **c**: std's **char::to_lowercase**,
/// of which the first character is taken. The contract names the result **lowercase_first(c)**:
/// it depends on **c** alone, and nothing more is claimed of it.
#[verifier::external_body]
pub(crate) fn first_lowercase(c: char) -> (r: Option<char>)
    ensures
        r == lowercase_first(c),
{
    c.to_lowercase().next()
}

/// Returns the lowercase form of the string made of **s**: std's **str::to_lowercase** on the
/// string of these characters, split back into characters. The contract names the result
/// **lowercase_string(s)**: it depends on **s** alone, and nothing more is claimed of it.
#[verifier::external_body]
pub(crate) fn to_lowercase(s: &Vec<char>) -> (r: Vec<char>)
    ensures
        r@ == lowercase_string(s@),
{
    s.iter().collect::<String>().to_lowercase().chars().collect()
}

/// Whether **goal** matches the front of **text** ignoring case: each character of the text,
/// lowercased, gives the character of the goal (a character with an empty lowercase form
/// matches anything).
pub open spec fn caseless_prefix(goal: Seq<char>, text: Seq<char>) -> bool {
    &&& goal.len() <= text.len()
    &&& forall|i: int| 0 <= i < goal.len() ==>
        #[trigger] lowercase_first(text[i]) is None || lowercase_first(text[i]) == Some(goal[i])
}

/// The number of bytes of the UTF-8 encoding of **s**.
pub open spec fn seq_bytes(s: Seq<char>) -> nat {
    byte_pos(s, s.len() as int)
}

/// Whether a CharsNode with string **s** and Limits **l** matches at character position **pos**
/// of **text**: the text there holds the string, or (for caseless nodes) holds it ignoring case
/// and has at least as many bytes left as the string has.
pub open spec fn chars_match_at(s: Seq<char>, l: Limits, text: Seq<char>, pos: int) -> bool {
    0 <= pos <= text.len() && (
        (pos + s.len() <= text.len() && text.subrange(pos, pos + s.len()) == s)
        || (l.spec_no_case() && seq_bytes(s) <= seq_bytes(text.skip(pos)) && caseless_prefix(s, text.skip(pos))))
}

/// Whether a RangeNode's set (ignoring **not**) holds the character at position **pos** of **text**.
pub open spec fn range_set_holds(r: RangeNode, text: Seq<char>, pos: int) -> bool {
    let ch = text[pos];
    ||| r.chars@.contains(ch)
    ||| exists|i: int| 0 <= i < r.ranges.len() && #[trigger] r.ranges@[i].from <= ch && ch <= r.ranges@[i].to
    ||| exists|i: int| 0 <= i < r.specials.len() && special_at(#[trigger] r.specials@[i], text, pos)
}


/// Copies a character vector.
pub fn copy_chars(v: &Vec<char>) -> (r: Vec<char>)
    ensures
        r@ == v@,
{
    let r = v.clone();
    proof {
        assert(r@ =~= v@);
    }
    r
}

/// Copies an optional name.
pub fn copy_name(n: &Option<Vec<char>>) -> (r: Option<Vec<char>>)
    ensures
        name_view(r) == name_view(*n),
        r is Some <==> n is Some,
{
    match n {
        Some(v) => Some(copy_chars(v)),
        None => None,
    }
}

impl Clone for CharsNode {
    fn clone(&self) -> (r: CharsNode)
        ensures
            r.limits == self.limits,
            name_view(r.named) == name_view(self.named),
            r.string@ == self.string@,
            r.name_outside == self.name_outside,
    {
        CharsNode {
            limits: self.limits,
            named: copy_name(&self.named),
            string: copy_chars(&self.string),
            name_outside: self.name_outside,
        }
    }
}

impl Clone for SpecialNode {
    fn clone(&self) -> (r: SpecialNode)
        ensures
            r.limits == self.limits,
            name_view(r.named) == name_view(self.named),
            r.special == self.special,
            r.name_outside == self.name_outside,
    {
        SpecialNode {
            limits: self.limits,
            named: copy_name(&self.named),
            special: self.special,
            name_outside: self.name_outside,
        }
    }
}

impl Clone for RangeNode {
    fn clone(&self) -> (r: RangeNode)
        ensures
            r.limits == self.limits,
            name_view(r.named) == name_view(self.named),
            r.not == self.not,
            r.chars@ == self.chars@,
            r.ranges@ == self.ranges@,
            r.specials@ == self.specials@,
            r.name_outside == self.name_outside,
    {
        let mut ranges: Vec<Range> = Vec::new();
        let mut i: usize = 0;
        while i < self.ranges.len()
            invariant
                i <= self.ranges.len(),
                ranges@ == self.ranges@.take(i as int),
            decreases self.ranges.len() - i,
        {
            ranges.push(self.ranges[i]);
            proof {
                assert(self.ranges@.take(i + 1) =~= self.ranges@.take(i as int).push(self.ranges@[i as int]));
            }
            i = i + 1;
        }
        proof {
            assert(self.ranges@.take(i as int) =~= self.ranges@);
        }
        RangeNode {
            limits: self.limits,
            named: copy_name(&self.named),
            not: self.not,
            chars: copy_chars(&self.chars),
            ranges,
            specials: copy_chars(&self.specials),
            name_outside: self.name_outside,
        }
    }
}

/// The parts of **m** that a copy of **n** keeps: the kind of node, its Limits and its name.
pub open spec fn copy_keeps(n: Node, m: Node) -> bool {
    &&& node_limits(m) == node_limits(n)
    &&& name_view(node_named(m)) == name_view(node_named(n))
    &&& (n is Chars <==> m is Chars)
    &&& (n is Special <==> m is Special)
    &&& (n is Range <==> m is Range)
    &&& (n is And <==> m is And)
    &&& (n is Or <==> m is Or)
    &&& (n is Def <==> m is Def)
    &&& (n is Empty <==> m is Empty)
}

/// The children of an AND node are well-formed exactly when the node is (given it has children).
pub proof fn lemma_and_children(a: AndNode)
    ensures
        node_unresolved(Node::And(a)) <==> (a.nodes.len() > 0 && forall|j: int| 0 <= j < a.nodes.len() ==> #[trigger] node_unresolved(a.nodes@[j])),
        node_resolved(Node::And(a)) <==> (a.nodes.len() > 0 && forall|j: int| 0 <= j < a.nodes.len() ==> #[trigger] node_resolved(a.nodes@[j])),
{
    lemma_all_unresolved(a.nodes@);
    lemma_all_resolved(a.nodes@);
}

/// The children of an OR node are well-formed exactly when the node is (given it has children).
pub proof fn lemma_or_children(a: OrNode)
    ensures
        node_unresolved(Node::Or(a)) <==> (a.nodes.len() > 0 && forall|j: int| 0 <= j < a.nodes.len() ==> #[trigger] node_unresolved(a.nodes@[j])),
        node_resolved(Node::Or(a)) <==> (a.nodes.len() > 0 && forall|j: int| 0 <= j < a.nodes.len() ==> #[trigger] node_resolved(a.nodes@[j])),
{
    lemma_all_unresolved(a.nodes@);
    lemma_all_resolved(a.nodes@);
}

/// Copies a list of nodes.
fn copy_nodes(nodes: &Vec<Node>) -> (r: Vec<Node>)
    ensures
        r.len() == nodes.len(),
        forall|i: int| 0 <= i < nodes.len() ==> copy_keeps(nodes@[i], #[trigger] r@[i]),
        forall|i: int| 0 <= i < nodes.len() ==> node_unresolved(nodes@[i]) ==> node_unresolved(#[trigger] r@[i]),
        forall|i: int| 0 <= i < nodes.len() ==> node_resolved(nodes@[i]) ==> node_resolved(#[trigger] r@[i]),
        shapes(r@) == copy_shapes(shapes(nodes@)),
    decreases nodes, 0nat,
{
    let mut r: Vec<Node> = Vec::new();
    let mut i: usize = 0;
    while i < nodes.len()
        invariant
            i <= nodes.len(),
            r.len() == i,
            forall|k: int| 0 <= k < i ==> copy_keeps(nodes@[k], #[trigger] r@[k]),
            forall|k: int| 0 <= k < i ==> node_unresolved(nodes@[k]) ==> node_unresolved(#[trigger] r@[k]),
            forall|k: int| 0 <= k < i ==> node_resolved(nodes@[k]) ==> node_resolved(#[trigger] r@[k]),
            forall|k: int| 0 <= k < i ==> #[trigger] shape(r@[k]) == copy_shape(shape(nodes@[k])),
        decreases nodes.len() - i,
    {
        proof {
            assert(decreases_to!(nodes => nodes@[i as int]));
        }
        r.push(nodes[i].copy());
        i = i + 1;
    }
    proof {
        lemma_shapes(r@);
        lemma_shapes(nodes@);
        lemma_copy_shapes(shapes(nodes@));
        assert(shapes(r@) =~= copy_shapes(shapes(nodes@)));
    }
    r
}

impl Node {
    /// Copies the node and its subtree. By design, copies of AND, OR and
    /// definition nodes do not keep the name-placement flag.
    pub fn copy(&self) -> (r: Node)
        ensures
            copy_keeps(*self, r),
            node_unresolved(*self) ==> node_unresolved(r),
            node_resolved(*self) ==> node_resolved(r),
            shape(r) == copy_shape(shape(*self)),
        decreases self, 1nat,
    {
        match self {
            Node::Chars(a) => Node::Chars(a.clone()),
            Node::Special(a) => Node::Special(a.clone()),
            Node::Range(a) => Node::Range(a.clone()),
            Node::And(a) => {
                proof {
                    lemma_and_children(*a);
                }
                let nodes = copy_nodes(&a.nodes);
                let r = AndNode {
                    limits: a.limits,
                    named: copy_name(&a.named),
                    anchor: a.anchor,
                    nodes,
                    name_outside: false,
                };
                proof {
                    lemma_and_children(r);
                }
                Node::And(r)
            },
            Node::Or(a) => {
                proof {
                    lemma_or_children(*a);
                }
                let nodes = copy_nodes(&a.nodes);
                let r = OrNode { limits: a.limits, named: copy_name(&a.named), nodes, name_outside: false };
                proof {
                    lemma_or_children(r);
                }
                Node::Or(r)
            },
            Node::Def(a) => {
                let inner = a.node.copy();
                proof {
                    if node_unresolved(*self) {
                        assert(inner is Empty);
                        assert(inner == Node::Empty);
                    }
                }
                Node::Def(DefNode {
                    name: copy_chars(&a.name),
                    node: Box::new(inner),
                    named: copy_name(&a.named),
                    limits: a.limits,
                    name_outside: false,
                })
            },
            Node::Empty => Node::Empty,
        }
    }

    /// checks whether the node is the special Node::Empty type, used to initialize structures and in case of errors.
    pub fn is_none(&self) -> (r: bool)
        ensures
            r == (*self is Empty),
    {
        match self {
            Node::Empty => true,
            _ => false,
        }
    }

    /// returns the Limits of the node
    pub fn limits(&self) -> (l: Limits)
        requires
            !(*self is Empty),
        ensures
            l == node_limits(*self),
    {
        match self {
            Node::Chars(a) => a.limits,
            Node::Special(a) => a.limits,
            Node::Range(a) => a.limits,
            Node::And(a) => a.limits,
            Node::Or(a) => a.limits,
            Node::Def(a) => a.limits,
            Node::Empty => Limits::default(),
        }
    }

    /// return TRUE if node has lazy eval
    pub fn lazy(&self) -> (r: bool)
        requires
            !(*self is Empty),
        ensures
            r == node_limits(*self).spec_lazy(),
    {
        self.limits().lazy()
    }

    /// return TRUE if node ignores case
    pub fn no_case(&self) -> (r: bool)
        requires
            !(*self is Empty),
        ensures
            r == node_limits(*self).spec_no_case(),
    {
        self.limits().no_case()
    }

    /// Sets the name for the wrapped XXXNode. The name-placement flag is set only if there is a name.
    pub fn set_named(&mut self, named: Option<Vec<char>>, name_outside: bool)
        requires
            !(*old(self) is Empty),
        ensures
            node_named(*final(self)) == named,
            node_name_outside(*final(self)) == (name_outside && named is Some),
            same_but_name(*old(self), *final(self)),
            shape(*final(self)) == shape_with_name(shape(*old(self)), name_view(named), name_outside && named is Some),
    {
        let outside = name_outside && named.is_some();
        match self {
            Node::Chars(a) => {
                a.named = named;
                a.name_outside = outside;
            },
            Node::Special(a) => {
                a.named = named;
                a.name_outside = outside;
            },
            Node::Range(a) => {
                a.named = named;
                a.name_outside = outside;
            },
            Node::And(a) => {
                a.named = named;
                a.name_outside = outside;
            },
            Node::Or(a) => {
                a.named = named;
                a.name_outside = outside;
            },
            Node::Def(a) => {
                a.named = named;
                a.name_outside = outside;
            },
            Node::Empty => {},
        }
    }

    /// Gets the name of the wrapped XXXNode
    pub fn named(&self) -> (r: &Option<Vec<char>>)
        requires
            !(*self is Empty),
        ensures
            *r == node_named(*self),
    {
        match self {
            Node::Chars(a) => &a.named,
            Node::Special(a) => &a.named,
            Node::Range(a) => &a.named,
            Node::And(a) => &a.named,
            Node::Or(a) => &a.named,
            Node::Def(a) => &a.named,
            Node::Empty => vstd::pervasive::unreached(),
        }
    }

    /// Sets the Limits of the wrapped XXXNode
    pub fn set_limits(&mut self, limits: Limits)
        requires
            !(*old(self) is Empty),
        ensures
            node_limits(*final(self)) == limits,
            same_but_limits(*old(self), *final(self)),
            shape(*final(self)) == shape_with_limits(shape(*old(self)), limits),
    {
        match self {
            Node::Chars(a) => a.limits = limits,
            Node::Special(a) => a.limits = limits,
            Node::Range(a) => a.limits = limits,
            Node::And(a) => a.limits = limits,
            Node::Or(a) => a.limits = limits,
            Node::Def(a) => a.limits = limits,
            Node::Empty => {},
        }
    }
}

impl Range {
    /// Checks if the Range includes the given character
    pub fn contains(&self, ch: char) -> (r: bool)
        ensures
            r == (self.from <= ch && ch <= self.to),
    {
        self.from <= ch && ch <= self.to
    }
}

/// Checks if a string matches ignoring case: each character of **text** from **pos** on,
/// lowercased, must give the corresponding character of **goal**.
/// The goal also may not have more bytes than remain in the text.
pub fn compare_caseless(goal: &Vec<char>, text: &Text, pos: usize) -> (r: bool)
    requires
        pos <= text@.len(),
    ensures
        r == (seq_bytes(goal@) <= seq_bytes(text@.skip(pos as int)) && caseless_prefix(goal@, text@.skip(pos as int))),
{
    let ghost t = text@.skip(pos as int);
    let total = text.byte_offset(text.len());
    let start = text.byte_offset(pos);
    proof {
        crate::text::lemma_byte_pos_mono(text@, pos as int, text@.len() as int);
        crate::text::lemma_byte_pos_skip(text@, pos as int);
    }
    let remaining = total - start;
    // byte length of the goal, stopping as soon as it exceeds what remains
    let mut goal_bytes: usize = 0;
    let mut i: usize = 0;
    while i < goal.len()
        invariant
            i <= goal.len(),
            remaining == seq_bytes(t),
            t == text@.skip(pos as int),
            goal_bytes == byte_pos(goal@, i as int),
            goal_bytes <= remaining,
        decreases goal.len() - i,
    {
        let w = char_width(goal[i]);
        if w > remaining - goal_bytes {
            proof {
                crate::text::lemma_byte_pos_mono(goal@, i + 1, goal@.len() as int);
                assert(byte_pos(goal@, i + 1) == byte_pos(goal@, i as int) + utf8_width(goal@[i as int]));
                assert(byte_pos(goal@, i + 1) > remaining);
                assert(seq_bytes(goal@) > seq_bytes(t));
            }
            return false;
        }
        goal_bytes = goal_bytes + w;
        i = i + 1;
    }
    let len = text.len();
    let mut j: usize = 0;
    while j < goal.len()
        invariant
            j <= goal.len(),
            pos <= len == text@.len(),
            t == text@.skip(pos as int),
            seq_bytes(goal@) <= seq_bytes(t),
            forall|k: int| 0 <= k < j ==> k < t.len() && (#[trigger] lowercase_first(t[k]) is None || lowercase_first(t[k]) == Some(goal@[k])),
        decreases goal.len() - j,
    {
        if j >= len - pos {
            return false;
        }
        let ch1 = text.get(pos + j);
        proof {
            assert(t[j as int] == ch1);
        }
        if let Some(lc1) = first_lowercase(ch1) {
            if lc1 != goal[j] {
                proof {
                    assert(!(lowercase_first(t[j as int]) is None || lowercase_first(t[j as int]) == Some(goal@[j as int])));
                }
                return false;
            }
        }
        j = j + 1;
    }
    proof {
        if goal@.len() > 0 {
            let last = goal@.len() - 1;
            assert(last < t.len() && (lowercase_first(t[last]) is None || lowercase_first(t[last]) == Some(goal@[last])));
        }
    }
    true
}

impl CharsNode {
    /// The Node with this CharsNode.
    pub fn new(string: Vec<char>, limits: Limits, named: Option<Vec<char>>, name_outside: bool) -> (n: Node)
        ensures
            n == Node::Chars(CharsNode { string, limits, named, name_outside }),
    {
        Node::Chars(CharsNode { string, limits, named, name_outside })
    }

    /// Checks whether the text from position **pos** on starts with the contents of this node.
    /// Returns the number of characters matched.
    pub fn matches(&self, text: &Text, pos: usize) -> (r: Option<usize>)
        requires
            pos <= text@.len(),
        ensures
            r is Some <==> chars_match_at(self.string@, self.limits, text@, pos as int),
            r matches Some(n) ==> n == self.string.len(),
    {
        let len = text.len();
        let mut exact = self.string.len() <= len - pos;
        let mut i: usize = 0;
        if exact {
            while i < self.string.len()
                invariant
                    pos + self.string.len() <= len == text@.len(),
                    i <= self.string.len(),
                    forall|k: int| 0 <= k < i ==> text@[pos + k] == self.string@[k],
                    !exact ==> i < self.string.len() && text@[pos + i] != self.string@[i as int],
                ensures
                    i <= self.string.len(),
                    forall|k: int| 0 <= k < i ==> text@[pos + k] == self.string@[k],
                    exact ==> i == self.string.len(),
                    !exact ==> i < self.string.len() && text@[pos + i] != self.string@[i as int],
                decreases self.string.len() - i,
            {
                if text.get(pos + i) != self.string[i] {
                    exact = false;
                    break;
                }
                i = i + 1;
            }
            proof {
                let sub = text@.subrange(pos as int, pos + self.string.len());
                if exact {
                    assert(sub =~= self.string@);
                } else {
                    assert(sub[i as int] == text@[pos + i]);
                    assert(sub != self.string@);
                }
            }
        }
        if exact || (self.limits.no_case() && compare_caseless(&self.string, text, pos)) {
            Some(self.string.len())
        } else {
            None
        }
    }
}

impl SpecialNode {
    /// The Node with this SpecialNode.
    pub fn new(special: char, limits: Limits, named: Option<Vec<char>>, name_outside: bool) -> (n: Node)
        ensures
            n == Node::Special(SpecialNode { special, limits, named, name_outside }),
    {
        Node::Special(SpecialNode { special, limits, named, name_outside })
    }

    /// Checks whether the given special code matches at position **pos** of the text.
    /// This is used to allow special chars in Ranges
    pub fn char_match(sp_ch: char, text: &Text, pos: usize) -> (r: bool)
        ensures
            r == special_at(sp_ch, text@, pos as int),
    {
        if pos < text.len() {
            let ch = text.get(pos);
            if sp_ch == '.' {
                true
            } else if sp_ch == 'a' {
                ' ' <= ch && ch <= '~'
            } else if sp_ch == 'd' {
                '0' <= ch && ch <= '9'
            } else if sp_ch == 'l' {
                'a' <= ch && ch <= 'z'
            } else if sp_ch == 'n' {
                ch == '\n'
            } else if sp_ch == 't' {
                ch == '\t'
            } else if sp_ch == 'o' {
                '0' <= ch && ch <= '7'
            } else if sp_ch == 'u' {
                'A' <= ch && ch <= 'Z'
            } else if sp_ch == 'w' {
                ch == ' ' || ch == '\t' || ch == '\n'
            } else if sp_ch == 'x' {
                ('A' <= ch && ch <= 'F') || ('a' <= ch && ch <= 'f') || ('0' <= ch && ch <= '9')
            } else {
                false
            }
        } else {
            sp_ch == '$'
        }
    }

    /// Checks whether this node matches at position **pos** of the text. Returns the number of
    /// characters matched: none for '$', one otherwise.
    pub fn matches(&self, text: &Text, pos: usize) -> (r: Option<usize>)
        ensures
            r is Some <==> special_at(self.special, text@, pos as int),
            r matches Some(n) ==> n == (if self.special == '$' { 0usize } else { 1usize }),
    {
        if SpecialNode::char_match(self.special, text, pos) {
            Some(if self.special == '$' { 0 } else { 1 })
        } else {
            None
        }
    }
}

impl RangeNode {
    /// Checks whether the character at position **pos** of the text is in the set (or, for a
    /// negated set, is not in it). Returns the number of characters matched, always one.
    pub fn matches(&self, text: &Text, pos: usize) -> (r: Option<usize>)
        ensures
            r is Some <==> (0 <= pos < text@.len() && self.not != range_set_holds(*self, text@, pos as int)),
            r matches Some(n) ==> n == 1,
    {
        if pos < text.len() {
            let ch = text.get(pos);
            let mut found = false;
            let mut i: usize = 0;
            while !found && i < self.chars.len()
                invariant
                    i <= self.chars.len(),
                    found ==> self.chars@.contains(ch),
                    !found ==> forall|k: int| 0 <= k < i ==> self.chars@[k] != ch,
                decreases self.chars.len() - i,
            {
                if self.chars[i] == ch {
                    found = true;
                    proof {
                        assert(self.chars@[i as int] == ch);
                    }
                }
                i = i + 1;
            }
            proof {
                if !found {
                    assert(!self.chars@.contains(ch));
                }
            }
            let mut j: usize = 0;
            while !found && j < self.ranges.len()
                invariant
                    j <= self.ranges.len(),
                    found ==> (self.chars@.contains(ch) || exists|k: int| 0 <= k < self.ranges.len() && #[trigger] self.ranges@[k].from <= ch && ch <= self.ranges@[k].to),
                    !found ==> !self.chars@.contains(ch),
                    !found ==> forall|k: int| 0 <= k < j ==> !(#[trigger] self.ranges@[k].from <= ch && ch <= self.ranges@[k].to),
                decreases self.ranges.len() - j,
            {
                if self.ranges[j].contains(ch) {
                    found = true;
                }
                j = j + 1;
            }
            let mut k: usize = 0;
            while !found && k < self.specials.len()
                invariant
                    k <= self.specials.len(),
                    found ==> range_set_holds(*self, text@, pos as int),
                    !found ==> !self.chars@.contains(ch),
                    !found ==> forall|m: int| 0 <= m < self.ranges.len() ==> !(#[trigger] self.ranges@[m].from <= ch && ch <= self.ranges@[m].to),
                    !found ==> forall|m: int| 0 <= m < k ==> !special_at(#[trigger] self.specials@[m], text@, pos as int),
                    ch == text@[pos as int],
                    pos < text@.len(),
                decreases self.specials.len() - k,
            {
                if SpecialNode::char_match(self.specials[k], text, pos) {
                    found = true;
                }
                k = k + 1;
            }
            if self.not != found {
                Some(1)
            } else {
                None
            }
        } else {
            None
        }
    }
}

} // verus!
