//! ## Regular expression search: Tree walker
//! This module contains the code for walking the tree to find a RE match. Each match of a **Node** (representing a unit in the
//! RE tree) is represented by a **Step** object. The **Step**s are grouped in vectors to form **Path**s, each of which represents
//! a walk through the tree. When a **Path** reaches the end of the tree successfully it means the search has succeeded and that
//! **Path** is returned, representing a matched string, so it can generate a **Report** giving its route.
//!
//! Positions in the text are kept both in characters and in bytes. The walk moves by characters;
//! the byte offsets come from the **Text**.
use vstd::prelude::*;

use crate::error::Error;
use crate::walk_model::{
    and_back_off_loop, and_path_back_off_model, and_step_back_off_model, and_step_loop, and_step_model, and_view,
    and_views, and_walk_loop, and_walk_model, kids_view, leaf_back_off_model, leaf_spans_c, leaf_spans_r,
    leaf_spans_s, leaf_walk, lemma_and_views, lemma_kids_view, lemma_or_views, lemma_path_view, lemma_views_drop_last,
    lemma_and_views_push, lemma_or_views_push, lemma_kids_view_push, lemma_and_views_one, lemma_or_views_one, or_back_off_loop, or_finish, or_path_back_off_model, or_step_back_off_model, or_step_loop,
    or_step_model, or_view, or_views, or_walk_loop, or_walk_model, path_back_off_model, path_view, pv_end, pv_len, pv_start,
    walk_model, within, AndStepView, OrStepView, PathView, walk_agrees, and_step_agrees, or_step_agrees,
    back_off_agrees, search_agrees, search_all_agrees, search_from, search_all_model, walk_tree_model,
};
use crate::report::{
    lemma_report_views, lemma_report_views_add, lemma_report_views_push, lemma_reports_ok, report_ok, report_view,
    report_views, reports_ok, Report, ReportView,
};
use crate::limits::{Limits, EFFECTIVELY_INFINITE};
use crate::text::{byte_pos, lemma_byte_pos_mono, Text};
use crate::tree::{
    chars_match_at, copy_name, name_view, lemma_and_children, lemma_or_children, node_limits, node_resolved,
    range_set_holds, special_at, AndNode, CharsNode, Node, OrNode, RangeNode, SpecialNode,
};

verus! {

/// **Matched** is used to keep track of the state of the search: the part of the text matched by
/// its owning **Step**, in bytes and in characters.
#[derive(Clone, Copy, Debug)]
pub struct Matched {
    /// The byte offset of the start of the match
    pub start: usize,
    /// The byte offset of the end of the match
    pub end: usize,
    /// the start of the match in characters
    pub char_start: usize,
    /// the end of the match in characters
    pub char_end: usize,
}

/// A match lies in the text: its character range is inside the text and its byte offsets are
/// those of its character positions.
pub open spec fn matched_ok(m: Matched, text: Seq<char>) -> bool {
    &&& m.char_start <= m.char_end <= text.len()
    &&& m.start == byte_pos(text, m.char_start as int)
    &&& m.end == byte_pos(text, m.char_end as int)
}

/// A sequence of matches chained through the text: the first is empty, each starts where the
/// one before it ends, and all lie in the text.
pub open spec fn chain_ok(ms: Seq<Matched>, text: Seq<char>) -> bool {
    &&& ms.len() >= 1
    &&& ms[0].char_start == ms[0].char_end
    &&& forall|i: int| 0 <= i < ms.len() ==> matched_ok(#[trigger] ms[i], text)
    &&& forall|i: int| 0 < i < ms.len() ==> #[trigger] ms[i].char_start == ms[i - 1].char_end
}

impl Matched {
    /// Returns the length of the match in bytes
    pub fn len_bytes(&self) -> (n: usize)
        requires
            self.start <= self.end,
        ensures
            n == self.end - self.start,
    {
        self.end - self.start
    }

    /// Returns the length of the match in chars
    pub fn len_chars(&self) -> (n: usize)
        requires
            self.char_start <= self.char_end,
        ensures
            n == self.char_end - self.char_start,
    {
        self.char_end - self.char_start
    }

    /// The match of the text between character positions **from** and **to**.
    pub fn span(text: &Text, from: usize, to: usize) -> (m: Matched)
        requires
            from <= to <= text@.len(),
        ensures
            matched_ok(m, text@),
            m.char_start == from,
            m.char_end == to,
    {
        Matched { start: text.byte_offset(from), end: text.byte_offset(to), char_start: from, char_end: to }
    }

    /// Builds a new, empty Matched object immediately following the one pointed to by self
    fn next(&self, text: &Text) -> (m: Matched)
        requires
            matched_ok(*self, text@),
        ensures
            matched_ok(m, text@),
            m.char_start == self.char_end,
            m.char_end == self.char_end,
    {
        Matched { start: self.end, end: self.end, char_start: self.char_end, char_end: self.char_end }
    }

    /// Moves the end of Matched to the character position **to**
    fn set_end(&mut self, text: &Text, to: usize)
        requires
            old(self).char_start <= to <= text@.len(),
            old(self).start == byte_pos(text@, old(self).char_start as int),
        ensures
            matched_ok(*final(self), text@),
            final(self).char_start == old(self).char_start,
            final(self).char_end == to,
    {
        self.end = text.byte_offset(to);
        self.char_end = to;
    }
}

/// The walk gives up with this error once it has taken this many steps.
pub const SEARCH_BUDGET: u64 = 0x1000_0000_0000_0000;

/// Counts one unit of work of the walk against its budget.
fn tick(gas: &mut u64) -> (r: Result<(), Error>)
    ensures
        r is Ok <==> *old(gas) > 0,
        r is Ok ==> *final(gas) == *old(gas) - 1,
        r is Err ==> *final(gas) == *old(gas) && r->Err_0.code == 202,
{
    if *gas == 0 {
        Err(Error::make(202, "Search abandoned: the walk has used up its step budget"))
    } else {
        *gas = *gas - 1;
        Ok(())
    }
}

/// Call to check whether the walk is in an infinite loop: a repetition that can go on forever
/// and matched nothing.
fn loop_check(matched: &Matched, limits: &Limits) -> (r: Result<(), Error>)
    requires
        matched.start <= matched.end,
    ensures
        r is Err <==> (matched.start == matched.end && limits.max == EFFECTIVELY_INFINITE),
        r is Err ==> r->Err_0.code == 200,
{
    if matched.len_bytes() == 0 && limits.max == EFFECTIVELY_INFINITE {
        Err(Error::make(200, "Appears to be an infinite loop"))
    } else {
        Ok(())
    }
}

//////////////////////////////////////////////////////////////////
//
// Step structs
//
// A path through the tree is a vector of steps, where each step is a
// single match for its node.  The steps are used to walk through the
// tree and to build the Report structure for the caller.
//
//////////////////////////////////////////////////////////////////

/// Represents a single step for a CharsNode (a string of regular characters)
pub struct CharsStep<'a> {
    /// The node from phase 1
    pub node: &'a CharsNode,
    pub matched: Matched,
}

/// Represents a single step for a SpecialNode (a special character)
pub struct SpecialStep<'a> {
    /// The node from phase 1
    pub node: &'a SpecialNode,
    pub matched: Matched,
}

/// Represents a single step for a RangeNode (ie [abcx-z])
pub struct RangeStep<'a> {
    /// The node from phase 1
    pub node: &'a RangeNode,
    pub matched: Matched,
}

/// Represents a single step for an AndNode (a collection of 0 or more nodes that all must match)
pub struct AndStep<'a> {
    /// The node from phase 1
    pub node: &'a AndNode,
    pub matched: Matched,
    /// A vector of Paths saving the current state of this And node. Each entry is a **Path** based on the **nodes** member of the **AndNode** structure.
    /// When the Paths vector is filled this step for the And node has succeeded.
    pub child_paths: Vec<Path<'a>>,
}

/// Represents a single step for an OrNode (a collection of 0 or more nodes that one must match)
pub struct OrStep<'a> {
    /// The node from phase 1
    pub node: &'a OrNode,
    pub matched: Matched,
    /// The OR node needs only a single branch to succeed. This holds the successful path
    pub child_path: Box<Path<'a>>,
    /// This points to the entry in **node.nodes** which is currently in the **child_path** element
    pub which: usize,
}

/// Conceptually a Path takes as many steps as it can along the target
/// string. A Path is a series of Steps along a particular branch, from
/// 0 up to the maximum number allowed, or the maximum number matched,
/// whichever is smaller. If continuing the search from the end of the
/// Path fails it backtracks a Step and tries again.
/// The first Step of a Path stands for zero repetitions and matches nothing.
/// **Empty** stands for "no path yet".
pub enum Path<'a> {
    Chars(Vec<CharsStep<'a>>),
    Special(Vec<SpecialStep<'a>>),
    Range(Vec<RangeStep<'a>>),
    And(Vec<AndStep<'a>>),
    Or(Vec<OrStep<'a>>),
    Empty,
}

//////////////////////////////////////////////////////////////////
//
// The model of a walk
//
//////////////////////////////////////////////////////////////////

/// The node that a walk of **n** actually walks: definition references stand for their definitions.
pub open spec fn node_target(n: Node) -> Node
    decreases n,
{
    match n {
        Node::Def(d) => node_target(*d.node),
        _ => n,
    }
}

/// The matches of a list of Chars steps.
pub open spec fn chars_ms(s: Seq<CharsStep>) -> Seq<Matched> {
    Seq::new(s.len(), |i: int| s[i].matched)
}

/// The matches of a list of Special steps.
pub open spec fn special_ms(s: Seq<SpecialStep>) -> Seq<Matched> {
    Seq::new(s.len(), |i: int| s[i].matched)
}

/// The matches of a list of Range steps.
pub open spec fn range_ms(s: Seq<RangeStep>) -> Seq<Matched> {
    Seq::new(s.len(), |i: int| s[i].matched)
}

/// The matches of a list of And steps.
pub open spec fn and_ms(s: Seq<AndStep>) -> Seq<Matched> {
    Seq::new(s.len(), |i: int| s[i].matched)
}

/// The matches of a list of Or steps.
pub open spec fn or_ms(s: Seq<OrStep>) -> Seq<Matched> {
    Seq::new(s.len(), |i: int| s[i].matched)
}

/// The matches of the steps of a path.
pub open spec fn path_ms(p: Path) -> Seq<Matched> {
    match p {
        Path::Chars(s) => chars_ms(s@),
        Path::Special(s) => special_ms(s@),
        Path::Range(s) => range_ms(s@),
        Path::And(s) => and_ms(s@),
        Path::Or(s) => or_ms(s@),
        Path::Empty => Seq::empty(),
    }
}

/// The number of steps of a path (the zero step included).
pub open spec fn path_len(p: Path) -> nat {
    path_ms(p).len()
}

/// The character position where a path starts.
pub open spec fn path_start(p: Path) -> int {
    path_ms(p)[0].char_start as int
}

/// The character position where a path ends.
pub open spec fn path_end(p: Path) -> int {
    path_ms(p).last().char_end as int
}

/// Matches lie in the text one after the other, the first starting at **start** (nothing is
/// said of no matches).
pub open spec fn ms_positioned(ms: Seq<Matched>, start: int, text: Seq<char>) -> bool {
    ms.len() > 0 ==> {
        &&& ms[0].char_start == start
        &&& forall|i: int| 0 <= i < ms.len() ==> matched_ok(#[trigger] ms[i], text)
        &&& forall|i: int| 0 < i < ms.len() ==> #[trigger] ms[i].char_start == ms[i - 1].char_end
    }
}

/// The steps of a path lie in the text one after the other, the first starting at **start**
/// (nothing is said of a path with no steps).
pub open spec fn path_positioned(p: Path, start: int, text: Seq<char>) -> bool {
    ms_positioned(path_ms(p), start, text)
}

/// A Chars step after the zero step matches its string at its place in the text.
pub open spec fn chars_step_match(c: CharsNode, m: Matched, text: Seq<char>) -> bool {
    &&& m.char_start < text.len()
    &&& chars_match_at(c.string@, c.limits, text, m.char_start as int)
    &&& m.char_end == m.char_start + c.string.len()
}

/// A Special step after the zero step matches its code at its place in the text.
pub open spec fn special_step_match(c: SpecialNode, m: Matched, text: Seq<char>) -> bool {
    &&& special_at(c.special, text, m.char_start as int)
    &&& m.char_end == m.char_start + (if c.special == '$' { 0int } else { 1int })
}

/// A Range step after the zero step matches one character of (or, negated, not of) its set.
pub open spec fn range_step_match(c: RangeNode, m: Matched, text: Seq<char>) -> bool {
    &&& m.char_start < text.len()
    &&& c.not != range_set_holds(c, text, m.char_start as int)
    &&& m.char_end == m.char_start + 1
}

/// Whether a Chars step of **c** can be taken from character position **pos**.
pub open spec fn chars_step_possible(c: CharsNode, pos: int, text: Seq<char>) -> bool {
    pos < text.len() && chars_match_at(c.string@, c.limits, text, pos)
}

/// Whether a Special step of **c** can be taken from character position **pos**.
pub open spec fn special_step_possible(c: SpecialNode, pos: int, text: Seq<char>) -> bool {
    special_at(c.special, text, pos)
}

/// Whether a Range step of **c** can be taken from character position **pos**.
pub open spec fn range_step_possible(c: RangeNode, pos: int, text: Seq<char>) -> bool {
    0 <= pos < text.len() && c.not != range_set_holds(c, text, pos)
}

/// The repetition check of a path against the node it walks.
pub open spec fn path_check(p: Path, n: Node) -> int {
    node_limits(node_target(n)).spec_check(path_len(p) as int)
}

/// The steps of a Chars path of **c**: chained through the text, all of **c**, and each after
/// the zero step matching the text.
pub open spec fn chars_path_ok(s: Seq<CharsStep>, c: CharsNode, text: Seq<char>) -> bool {
    &&& chain_ok(chars_ms(s), text)
    &&& forall|i: int| 0 <= i < s.len() ==> *(#[trigger] s[i]).node == c
    &&& forall|i: int| 0 < i < s.len() ==> chars_step_match(c, (#[trigger] s[i]).matched, text)
}

/// The steps of a Special path of **c**, as for **chars_path_ok**.
pub open spec fn special_path_ok(s: Seq<SpecialStep>, c: SpecialNode, text: Seq<char>) -> bool {
    &&& chain_ok(special_ms(s), text)
    &&& forall|i: int| 0 <= i < s.len() ==> *(#[trigger] s[i]).node == c
    &&& forall|i: int| 0 < i < s.len() ==> special_step_match(c, (#[trigger] s[i]).matched, text)
}

/// The steps of a Range path of **c**, as for **chars_path_ok**.
pub open spec fn range_path_ok(s: Seq<RangeStep>, c: RangeNode, text: Seq<char>) -> bool {
    &&& chain_ok(range_ms(s), text)
    &&& forall|i: int| 0 <= i < s.len() ==> *(#[trigger] s[i]).node == c
    &&& forall|i: int| 0 < i < s.len() ==> range_step_match(c, (#[trigger] s[i]).matched, text)
}

/// A path is a walk of **n** through the text: its steps are chained through the text, each
/// step belongs to the node, every Chars, Special and Range step after the zero step matches
/// the text, and the steps of AND and OR nodes hold walks of their children.
pub open spec fn path_ok(p: Path, n: Node, text: Seq<char>) -> bool
    decreases p, 0nat,
{
    match p {
        Path::Chars(s) => match node_target(n) {
            Node::Chars(c) => chars_path_ok(s@, c, text),
            _ => false,
        },
        Path::Special(s) => match node_target(n) {
            Node::Special(c) => special_path_ok(s@, c, text),
            _ => false,
        },
        Path::Range(s) => match node_target(n) {
            Node::Range(c) => range_path_ok(s@, c, text),
            _ => false,
        },
        Path::And(s) => match node_target(n) {
            Node::And(a) => and_path_ok(s@, a, text),
            _ => false,
        },
        Path::Or(s) => match node_target(n) {
            Node::Or(o) => or_path_ok(s@, o, text),
            _ => false,
        },
        Path::Empty => false,
    }
}

/// The steps of an AND path of **a**: chained through the text, the zero step holding no child
/// paths, and each an AND step of **a**.
pub open spec fn and_path_ok(s: Seq<AndStep>, a: AndNode, text: Seq<char>) -> bool
    decreases s, 1nat,
{
    &&& chain_ok(and_ms(s), text)
    &&& s[0].child_paths.len() == 0
    &&& and_steps_ok(s, a, text)
}

/// The steps of an OR path of **o**: chained through the text, the zero step holding no path,
/// and each an OR step of **o**.
pub open spec fn or_path_ok(s: Seq<OrStep>, o: OrNode, text: Seq<char>) -> bool
    decreases s, 1nat,
{
    &&& chain_ok(or_ms(s), text)
    &&& *s[0].child_path is Empty
    &&& or_steps_ok(s, o, text)
}

/// Each step of **s** is an AND step of **a** whose children are walks of its nodes.
pub open spec fn and_steps_ok(s: Seq<AndStep>, a: AndNode, text: Seq<char>) -> bool
    decreases s, 0nat,
{
    if s.len() == 0 {
        true
    } else {
        and_step_ok(s[0], a, text) && and_steps_ok(s.drop_first(), a, text)
    }
}

/// An AND step of **a**: its child paths walk the first of **a**'s nodes one after the other
/// from the start of the step, each within its node's repetition limits, and the step ends where
/// the last of them ends (where it starts, if it has none).
pub open spec fn and_step_ok(st: AndStep, a: AndNode, text: Seq<char>) -> bool
    decreases st, 0nat,
{
    &&& *st.node == a
    &&& matched_ok(st.matched, text)
    &&& st.child_paths.len() <= a.nodes.len()
    &&& children_ok(st.child_paths@, a.nodes@, st.matched.char_start as int, text)
    &&& st.matched.char_end == children_end(st.child_paths@, st.matched.char_start as int)
}

/// Where a list of child paths starting at **start** ends.
pub open spec fn children_end(ps: Seq<Path>, start: int) -> int {
    if ps.len() == 0 {
        start
    } else {
        path_end(ps.last())
    }
}

/// The paths **ps** walk the first nodes of **ns** one after the other from **start**, each
/// within its node's repetition limits.
pub open spec fn children_ok(ps: Seq<Path>, ns: Seq<Node>, start: int, text: Seq<char>) -> bool
    decreases ps, 0nat,
{
    if ps.len() == 0 {
        true
    } else {
        &&& ns.len() > 0
        &&& path_ok(ps[0], ns[0], text)
        &&& path_start(ps[0]) == start
        &&& path_check(ps[0], ns[0]) == 0
        &&& children_ok(ps.drop_first(), ns.drop_first(), path_end(ps[0]), text)
    }
}

/// Each step of **s** is an OR step of **o**.
pub open spec fn or_steps_ok(s: Seq<OrStep>, o: OrNode, text: Seq<char>) -> bool
    decreases s, 0nat,
{
    if s.len() == 0 {
        true
    } else {
        or_step_ok(s[0], o, text) && or_steps_ok(s.drop_first(), o, text)
    }
}

/// An OR step of **o**: unless it holds no path, or has run out of alternatives, its child path
/// walks the alternative **which** over exactly the step.
pub open spec fn or_step_ok(st: OrStep, o: OrNode, text: Seq<char>) -> bool
    decreases st, 0nat,
{
    &&& *st.node == o
    &&& matched_ok(st.matched, text)
    &&& st.which <= o.nodes.len()
    &&& (st.which < o.nodes.len() && !(*st.child_path is Empty)) ==> {
        &&& path_ok(*st.child_path, o.nodes@[st.which as int], text)
        &&& path_start(*st.child_path) == st.matched.char_start
        &&& path_end(*st.child_path) == st.matched.char_end
    }
}

//////////////////////////////////////////////////////////////////
//
// Step struct method definitions
//
//////////////////////////////////////////////////////////////////

impl<'a> CharsStep<'a> {
    /// start a Path using a string of chars, matching as many times as it can subject to the matching algorithm (greedy or lazy)
    pub fn walk(node: &'a CharsNode, matched: Matched, text: &Text) -> (r: Result<Path<'a>, Error>)
        requires
            matched_ok(matched, text@),
            matched.char_start == matched.char_end,
        ensures
            r matches Ok(p) ==> path_ok(p, Node::Chars(*node), text@) && path_start(p) == matched.char_start
                && 1 <= path_len(p) <= node.limits.spec_initial_walk_limit() + 1,
            r is Ok,
            r matches Ok(p) ==> (path_len(p) <= node.limits.spec_initial_walk_limit() ==> !chars_step_possible(*node, path_end(p), text@)),
            r matches Ok(p) ==> path_view(p) == PathView::Leaf(leaf_walk(Node::Chars(*node),
                seq![(matched.char_start as int, matched.char_start as int)], node.limits.spec_initial_walk_limit() as int, text@)),
    {
        let mut steps: Vec<CharsStep<'a>> = Vec::new();
        steps.push(CharsStep { node, matched });
        let limit = node.limits.initial_walk_limit();
        proof {
            assert(chars_ms(steps@) =~= seq![matched]);
            assert(leaf_spans_c(steps@) =~= seq![(matched.char_start as int, matched.char_start as int)]);
        }
        while steps.len() <= limit
            invariant
                1 <= steps.len() <= limit + 1,
                limit == node.limits.spec_initial_walk_limit(),
                path_ok(Path::Chars(steps), Node::Chars(*node), text@),
                steps@[0].matched == matched,
                leaf_walk(Node::Chars(*node), leaf_spans_c(steps@), limit as int, text@) == leaf_walk(Node::Chars(*node), seq![(matched.char_start as int, matched.char_start as int)], limit as int, text@),
            ensures
                leaf_walk(Node::Chars(*node), leaf_spans_c(steps@), limit as int, text@) == leaf_walk(Node::Chars(*node), seq![(matched.char_start as int, matched.char_start as int)], limit as int, text@),
                leaf_walk(Node::Chars(*node), leaf_spans_c(steps@), limit as int, text@) == leaf_spans_c(steps@),
                1 <= steps.len() <= limit + 1,
                path_ok(Path::Chars(steps), Node::Chars(*node), text@),
                steps@[0].matched == matched,
                steps.len() <= limit ==> !chars_step_possible(*node, steps@.last().matched.char_end as int, text@),
            decreases limit + 1 - steps.len(),
        {
            let last = steps.len() - 1;
            proof {
                assert(chars_ms(steps@)[last as int] == steps@[last as int].matched);
                assert(leaf_spans_c(steps@).last().1 == steps@[last as int].matched.char_end);
            }
            match steps[last].step(text) {
                Some(st) => {
                    let ghost before = steps@;
                    steps.push(st);
                    proof {
                        assert(chars_ms(steps@) =~= chars_ms(before).push(st.matched));
                        assert(steps@[steps.len() - 1] == st);
                        assert(leaf_spans_c(steps@) =~= leaf_spans_c(before).push((st.matched.char_start as int, st.matched.char_end as int)));
                    }
                },
                None => {
                    break;
                },
            }
        }
        proof {
            assert(chars_ms(steps@)[0] == matched);
            assert(chars_ms(steps@).last() == steps@.last().matched);
        }
        Ok(Path::Chars(steps))
    }

    /// try to take a single step over a string of regular characters
    fn step(&self, text: &Text) -> (r: Option<CharsStep<'a>>)
        requires
            matched_ok(self.matched, text@),
        ensures
            r matches Some(st) ==> st.node == self.node && st.matched.char_start == self.matched.char_end
                && matched_ok(st.matched, text@) && chars_step_match(*self.node, st.matched, text@),
            r is Some <==> chars_step_possible(*self.node, self.matched.char_end as int, text@),
    {
        let start = self.matched.char_end;
        if start == text.len() {
            return None;
        }
        match self.node.matches(text, start) {
            Some(n) => {
                Some(CharsStep { node: self.node, matched: Matched::span(text, start, start + n) })
            },
            None => None,
        }
    }
}

impl<'a> SpecialStep<'a> {
    /// start a Path using a special character, matching as many times as it can subject to the matching algorithm (greedy or lazy)
    pub fn walk(node: &'a SpecialNode, matched: Matched, text: &Text) -> (r: Result<Path<'a>, Error>)
        requires
            matched_ok(matched, text@),
            matched.char_start == matched.char_end,
        ensures
            r matches Ok(p) ==> path_ok(p, Node::Special(*node), text@) && path_start(p) == matched.char_start
                && 1 <= path_len(p) <= node.limits.spec_initial_walk_limit() + 1,
            r is Ok,
            r matches Ok(p) ==> (path_len(p) <= node.limits.spec_initial_walk_limit() ==> !special_step_possible(*node, path_end(p), text@)),
            r matches Ok(p) ==> path_view(p) == PathView::Leaf(leaf_walk(Node::Special(*node),
                seq![(matched.char_start as int, matched.char_start as int)], node.limits.spec_initial_walk_limit() as int, text@)),
    {
        let mut steps: Vec<SpecialStep<'a>> = Vec::new();
        steps.push(SpecialStep { node, matched });
        let limit = node.limits.initial_walk_limit();
        proof {
            assert(special_ms(steps@) =~= seq![matched]);
            assert(leaf_spans_s(steps@) =~= seq![(matched.char_start as int, matched.char_start as int)]);
        }
        while steps.len() <= limit
            invariant
                1 <= steps.len() <= limit + 1,
                limit == node.limits.spec_initial_walk_limit(),
                path_ok(Path::Special(steps), Node::Special(*node), text@),
                steps@[0].matched == matched,
                leaf_walk(Node::Special(*node), leaf_spans_s(steps@), limit as int, text@) == leaf_walk(Node::Special(*node), seq![(matched.char_start as int, matched.char_start as int)], limit as int, text@),
            ensures
                leaf_walk(Node::Special(*node), leaf_spans_s(steps@), limit as int, text@) == leaf_walk(Node::Special(*node), seq![(matched.char_start as int, matched.char_start as int)], limit as int, text@),
                leaf_walk(Node::Special(*node), leaf_spans_s(steps@), limit as int, text@) == leaf_spans_s(steps@),
                1 <= steps.len() <= limit + 1,
                path_ok(Path::Special(steps), Node::Special(*node), text@),
                steps@[0].matched == matched,
                steps.len() <= limit ==> !special_step_possible(*node, steps@.last().matched.char_end as int, text@),
            decreases limit + 1 - steps.len(),
        {
            let last = steps.len() - 1;
            proof {
                assert(special_ms(steps@)[last as int] == steps@[last as int].matched);
                assert(leaf_spans_s(steps@).last().1 == steps@[last as int].matched.char_end);
            }
            match steps[last].step(text) {
                Some(st) => {
                    let ghost before = steps@;
                    steps.push(st);
                    proof {
                        assert(special_ms(steps@) =~= special_ms(before).push(st.matched));
                        assert(steps@[steps.len() - 1] == st);
                        assert(leaf_spans_s(steps@) =~= leaf_spans_s(before).push((st.matched.char_start as int, st.matched.char_end as int)));
                    }
                },
                None => {
                    break;
                },
            }
        }
        proof {
            assert(special_ms(steps@)[0] == matched);
            assert(special_ms(steps@).last() == steps@.last().matched);
        }
        Ok(Path::Special(steps))
    }

    /// try to take a single step over a special character
    fn step(&self, text: &Text) -> (r: Option<SpecialStep<'a>>)
        requires
            matched_ok(self.matched, text@),
        ensures
            r matches Some(st) ==> st.node == self.node && st.matched.char_start == self.matched.char_end
                && matched_ok(st.matched, text@) && special_step_match(*self.node, st.matched, text@),
            r is Some <==> special_step_possible(*self.node, self.matched.char_end as int, text@),
    {
        let start = self.matched.char_end;
        let len = text.len();
        match self.node.matches(text, start) {
            Some(n) => {
                proof {
                    if start as int >= text@.len() {
                        assert(self.node.special == '$');
                    } else if self.node.special == '$' {
                        assert(!crate::tree::special_accepts('$', text@[start as int]));
                    }
                    assert(start + n <= text@.len());
                }
                Some(SpecialStep { node: self.node, matched: Matched::span(text, start, start + n) })
            },
            None => None,
        }
    }
}

impl<'a> RangeStep<'a> {
    /// start a Path using a character set, matching as many times as it can subject to the matching algorithm (greedy or lazy)
    pub fn walk(node: &'a RangeNode, matched: Matched, text: &Text) -> (r: Result<Path<'a>, Error>)
        requires
            matched_ok(matched, text@),
            matched.char_start == matched.char_end,
        ensures
            r matches Ok(p) ==> path_ok(p, Node::Range(*node), text@) && path_start(p) == matched.char_start
                && 1 <= path_len(p) <= node.limits.spec_initial_walk_limit() + 1,
            r is Ok,
            r matches Ok(p) ==> (path_len(p) <= node.limits.spec_initial_walk_limit() ==> !range_step_possible(*node, path_end(p), text@)),
            r matches Ok(p) ==> path_view(p) == PathView::Leaf(leaf_walk(Node::Range(*node),
                seq![(matched.char_start as int, matched.char_start as int)], node.limits.spec_initial_walk_limit() as int, text@)),
    {
        let mut steps: Vec<RangeStep<'a>> = Vec::new();
        steps.push(RangeStep { node, matched });
        let limit = node.limits.initial_walk_limit();
        proof {
            assert(range_ms(steps@) =~= seq![matched]);
            assert(leaf_spans_r(steps@) =~= seq![(matched.char_start as int, matched.char_start as int)]);
        }
        while steps.len() <= limit
            invariant
                1 <= steps.len() <= limit + 1,
                limit == node.limits.spec_initial_walk_limit(),
                path_ok(Path::Range(steps), Node::Range(*node), text@),
                steps@[0].matched == matched,
                leaf_walk(Node::Range(*node), leaf_spans_r(steps@), limit as int, text@) == leaf_walk(Node::Range(*node), seq![(matched.char_start as int, matched.char_start as int)], limit as int, text@),
            ensures
                leaf_walk(Node::Range(*node), leaf_spans_r(steps@), limit as int, text@) == leaf_walk(Node::Range(*node), seq![(matched.char_start as int, matched.char_start as int)], limit as int, text@),
                leaf_walk(Node::Range(*node), leaf_spans_r(steps@), limit as int, text@) == leaf_spans_r(steps@),
                1 <= steps.len() <= limit + 1,
                path_ok(Path::Range(steps), Node::Range(*node), text@),
                steps@[0].matched == matched,
                steps.len() <= limit ==> !range_step_possible(*node, steps@.last().matched.char_end as int, text@),
            decreases limit + 1 - steps.len(),
        {
            let last = steps.len() - 1;
            proof {
                assert(range_ms(steps@)[last as int] == steps@[last as int].matched);
                assert(leaf_spans_r(steps@).last().1 == steps@[last as int].matched.char_end);
            }
            match steps[last].step(text) {
                Some(st) => {
                    let ghost before = steps@;
                    steps.push(st);
                    proof {
                        assert(range_ms(steps@) =~= range_ms(before).push(st.matched));
                        assert(steps@[steps.len() - 1] == st);
                        assert(leaf_spans_r(steps@) =~= leaf_spans_r(before).push((st.matched.char_start as int, st.matched.char_end as int)));
                    }
                },
                None => {
                    break;
                },
            }
        }
        proof {
            assert(range_ms(steps@)[0] == matched);
            assert(range_ms(steps@).last() == steps@.last().matched);
        }
        Ok(Path::Range(steps))
    }

    /// try to take a single step over a character set
    fn step(&self, text: &Text) -> (r: Option<RangeStep<'a>>)
        requires
            matched_ok(self.matched, text@),
        ensures
            r matches Some(st) ==> st.node == self.node && st.matched.char_start == self.matched.char_end
                && matched_ok(st.matched, text@) && range_step_match(*self.node, st.matched, text@),
            r is Some <==> range_step_possible(*self.node, self.matched.char_end as int, text@),
    {
        let start = self.matched.char_end;
        if start == text.len() {
            return None;
        }
        match self.node.matches(text, start) {
            Some(n) => {
                Some(RangeStep { node: self.node, matched: Matched::span(text, start, start + n) })
            },
            None => None,
        }
    }
}

//////////////////////////////////////////////////////////////////
//
// Lemmas on the model
//
//////////////////////////////////////////////////////////////////

/// A chain of matches goes on with a match that starts where the last one ends.
proof fn lemma_chain_push(ms: Seq<Matched>, m: Matched, text: Seq<char>)
    requires
        chain_ok(ms, text),
        matched_ok(m, text),
        m.char_start == ms.last().char_end,
    ensures
        chain_ok(ms.push(m), text),
{
    assert(ms.push(m)[0] == ms[0]);
    assert forall|i: int| 0 <= i < ms.push(m).len() implies matched_ok(#[trigger] ms.push(m)[i], text) by {
        if i < ms.len() {
            assert(ms.push(m)[i] == ms[i]);
        }
    }
    assert forall|i: int| 0 < i < ms.push(m).len() implies #[trigger] ms.push(m)[i].char_start == ms.push(m)[i - 1].char_end by {
        if i < ms.len() {
            assert(ms.push(m)[i] == ms[i]);
            assert(ms.push(m)[i - 1] == ms[i - 1]);
        }
    }
}

/// A chain of matches may have its last match replaced by one that starts at the same place
/// (by an empty one, if it is the only match).
proof fn lemma_chain_replace_last(ms: Seq<Matched>, m: Matched, text: Seq<char>)
    requires
        chain_ok(ms, text),
        matched_ok(m, text),
        m.char_start == ms.last().char_start,
        ms.len() == 1 ==> m.char_end == m.char_start,
    ensures
        chain_ok(ms.drop_last().push(m), text),
{
    let t = ms.drop_last().push(m);
    assert forall|i: int| 0 <= i < t.len() implies matched_ok(#[trigger] t[i], text) by {
        if i < ms.len() - 1 {
            assert(t[i] == ms[i]);
        }
    }
    assert forall|i: int| 0 < i < t.len() implies #[trigger] t[i].char_start == t[i - 1].char_end by {
        assert(t[i - 1] == ms[i - 1]);
        if i < ms.len() - 1 {
            assert(t[i] == ms[i]);
        } else {
            assert(ms[i].char_start == ms[i - 1].char_end);
        }
    }
}

/// The first **k** matches of a chain lie in the text one after the other from its start.
proof fn lemma_chain_take(ms: Seq<Matched>, k: int, text: Seq<char>)
    requires
        chain_ok(ms, text),
        0 <= k <= ms.len(),
    ensures
        ms_positioned(ms.take(k), ms[0].char_start as int, text),
        k >= 1 ==> chain_ok(ms.take(k), text),
{
    let t = ms.take(k);
    assert forall|i: int| 0 <= i < t.len() implies matched_ok(#[trigger] t[i], text) by {
        assert(t[i] == ms[i]);
    }
    assert forall|i: int| 0 < i < t.len() implies #[trigger] t[i].char_start == t[i - 1].char_end by {
        assert(t[i] == ms[i]);
        assert(t[i - 1] == ms[i - 1]);
    }
}

/// In a chain of matches each match ends at or after the start of the first.
proof fn lemma_chain_mono(ms: Seq<Matched>, text: Seq<char>, j: int)
    requires
        0 <= j < ms.len(),
        forall|i: int| 0 <= i < ms.len() ==> matched_ok(#[trigger] ms[i], text),
        forall|i: int| 0 < i < ms.len() ==> #[trigger] ms[i].char_start == ms[i - 1].char_end,
    ensures
        ms[0].char_start <= ms[j].char_end,
    decreases j,
{
    assert(matched_ok(ms[j], text));
    if j > 0 {
        lemma_chain_mono(ms, text, j - 1);
        assert(ms[j].char_start == ms[j - 1].char_end);
    }
}

/// A match that lies in the text has its byte offsets in order, equal exactly when it is empty.
proof fn lemma_matched_bytes(m: Matched, text: Seq<char>)
    requires
        matched_ok(m, text),
    ensures
        m.start <= m.end,
        (m.start == m.end) == (m.char_start == m.char_end),
{
    lemma_byte_pos_mono(text, m.char_start as int, m.char_end as int);
}

/// Adding a step that is an AND step of **a** keeps a list of AND steps of **a**.
proof fn lemma_and_steps_push(s: Seq<AndStep>, a: AndNode, st: AndStep, text: Seq<char>)
    requires
        and_steps_ok(s, a, text),
        and_step_ok(st, a, text),
    ensures
        and_steps_ok(s.push(st), a, text),
    decreases s.len(),
{
    if s.len() > 0 {
        assert(s.push(st).drop_first() =~= s.drop_first().push(st));
        assert(s.push(st)[0] == s[0]);
        lemma_and_steps_push(s.drop_first(), a, st, text);
    } else {
        assert(s.push(st).drop_first() =~= Seq::<AndStep>::empty());
        assert(s.push(st)[0] == st);
        assert(and_steps_ok(Seq::<AndStep>::empty(), a, text));
    }
}

/// The steps of a list of AND steps of **a** are AND steps of **a**, and so are its prefixes.
proof fn lemma_and_steps_index(s: Seq<AndStep>, a: AndNode, text: Seq<char>)
    requires
        and_steps_ok(s, a, text),
    ensures
        forall|i: int| 0 <= i < s.len() ==> and_step_ok(#[trigger] s[i], a, text),
        s.len() > 0 ==> and_steps_ok(s.drop_last(), a, text),
    decreases s.len(),
{
    if s.len() > 0 {
        lemma_and_steps_index(s.drop_first(), a, text);
        assert forall|i: int| 0 <= i < s.len() implies and_step_ok(#[trigger] s[i], a, text) by {
            if i > 0 {
                assert(s[i] == s.drop_first()[i - 1]);
            }
        }
        if s.len() > 1 {
            assert(s.drop_last().drop_first() =~= s.drop_first().drop_last());
        } else {
            assert(s.drop_last() =~= Seq::<AndStep>::empty());
        }
    }
}

/// Adding a step that is an OR step of **o** keeps a list of OR steps of **o**.
proof fn lemma_or_steps_push(s: Seq<OrStep>, o: OrNode, st: OrStep, text: Seq<char>)
    requires
        or_steps_ok(s, o, text),
        or_step_ok(st, o, text),
    ensures
        or_steps_ok(s.push(st), o, text),
    decreases s.len(),
{
    if s.len() > 0 {
        assert(s.push(st).drop_first() =~= s.drop_first().push(st));
        assert(s.push(st)[0] == s[0]);
        lemma_or_steps_push(s.drop_first(), o, st, text);
    } else {
        assert(s.push(st).drop_first() =~= Seq::<OrStep>::empty());
        assert(s.push(st)[0] == st);
        assert(or_steps_ok(Seq::<OrStep>::empty(), o, text));
    }
}

/// The steps of a list of OR steps of **o** are OR steps of **o**, and so are its prefixes.
proof fn lemma_or_steps_index(s: Seq<OrStep>, o: OrNode, text: Seq<char>)
    requires
        or_steps_ok(s, o, text),
    ensures
        forall|i: int| 0 <= i < s.len() ==> or_step_ok(#[trigger] s[i], o, text),
        s.len() > 0 ==> or_steps_ok(s.drop_last(), o, text),
    decreases s.len(),
{
    if s.len() > 0 {
        lemma_or_steps_index(s.drop_first(), o, text);
        assert forall|i: int| 0 <= i < s.len() implies or_step_ok(#[trigger] s[i], o, text) by {
            if i > 0 {
                assert(s[i] == s.drop_first()[i - 1]);
            }
        }
        if s.len() > 1 {
            assert(s.drop_last().drop_first() =~= s.drop_first().drop_last());
        } else {
            assert(s.drop_last() =~= Seq::<OrStep>::empty());
        }
    }
}

/// An AND path goes on with an AND step that starts where it ends.
proof fn lemma_and_path_push(s: Seq<AndStep>, st: AndStep, a: AndNode, text: Seq<char>)
    requires
        and_path_ok(s, a, text),
        and_step_ok(st, a, text),
        st.matched.char_start == s.last().matched.char_end,
    ensures
        and_path_ok(s.push(st), a, text),
        s.push(st)[0] == s[0],
{
    lemma_and_steps_push(s, a, st, text);
    assert(and_ms(s.push(st)) =~= and_ms(s).push(st.matched));
    assert(and_ms(s).last() == s.last().matched);
    lemma_chain_push(and_ms(s), st.matched, text);
    assert(s.push(st)[0] == s[0]);
}

/// An AND path less its last step is an AND path (if a step is left), and the last step is an
/// AND step.
proof fn lemma_and_path_pop(s: Seq<AndStep>, a: AndNode, text: Seq<char>)
    requires
        and_path_ok(s, a, text),
    ensures
        s.len() >= 1,
        and_step_ok(s.last(), a, text),
        and_ms(s).last() == s.last().matched,
        ms_positioned(and_ms(s.drop_last()), and_ms(s)[0].char_start as int, text),
        s.len() > 1 ==> and_path_ok(s.drop_last(), a, text) && s.drop_last().last().matched.char_end == s.last().matched.char_start,
        s.len() == 1 ==> s.last().child_paths.len() == 0,
{
    lemma_and_steps_index(s, a, text);
    assert(and_ms(s.drop_last()) =~= and_ms(s).take(s.len() - 1));
    lemma_chain_take(and_ms(s), s.len() - 1, text);
    if s.len() > 1 {
        assert(s.drop_last()[0] == s[0]);
        assert(and_ms(s)[s.len() - 1].char_start == and_ms(s)[s.len() - 2].char_end);
    }
}

/// An AND path may have its last step replaced by an AND step that starts at the same place (by
/// the zero step itself, if it is the only step).
proof fn lemma_and_path_replace(s: Seq<AndStep>, st: AndStep, a: AndNode, text: Seq<char>)
    requires
        and_path_ok(s, a, text),
        and_step_ok(st, a, text),
        st.matched.char_start == s.last().matched.char_start,
        s.len() == 1 ==> st == s.last(),
    ensures
        and_path_ok(s.drop_last().push(st), a, text),
        s.len() > 1 ==> s.drop_last().push(st)[0] == s[0],
{
    lemma_and_path_pop(s, a, text);
    lemma_and_steps_push(s.drop_last(), a, st, text);
    assert(and_ms(s.drop_last().push(st)) =~= and_ms(s).drop_last().push(st.matched));
    lemma_chain_replace_last(and_ms(s), st.matched, text);
    if s.len() == 1 {
        assert(s.drop_last().push(st) =~= s);
    } else {
        assert(s.drop_last().push(st)[0] == s[0]);
    }
}

/// An OR path goes on with an OR step that starts where it ends.
proof fn lemma_or_path_push(s: Seq<OrStep>, st: OrStep, o: OrNode, text: Seq<char>)
    requires
        or_path_ok(s, o, text),
        or_step_ok(st, o, text),
        st.matched.char_start == s.last().matched.char_end,
    ensures
        or_path_ok(s.push(st), o, text),
        s.push(st)[0] == s[0],
{
    lemma_or_steps_push(s, o, st, text);
    assert(or_ms(s.push(st)) =~= or_ms(s).push(st.matched));
    assert(or_ms(s).last() == s.last().matched);
    lemma_chain_push(or_ms(s), st.matched, text);
    assert(s.push(st)[0] == s[0]);
}

/// An OR path less its last step is an OR path (if a step is left), and the last step is an
/// OR step.
proof fn lemma_or_path_pop(s: Seq<OrStep>, o: OrNode, text: Seq<char>)
    requires
        or_path_ok(s, o, text),
    ensures
        s.len() >= 1,
        or_step_ok(s.last(), o, text),
        or_ms(s).last() == s.last().matched,
        ms_positioned(or_ms(s.drop_last()), or_ms(s)[0].char_start as int, text),
        s.len() > 1 ==> or_path_ok(s.drop_last(), o, text) && s.drop_last().last().matched.char_end == s.last().matched.char_start,
        s.len() == 1 ==> *s.last().child_path is Empty,
{
    lemma_or_steps_index(s, o, text);
    assert(or_ms(s.drop_last()) =~= or_ms(s).take(s.len() - 1));
    lemma_chain_take(or_ms(s), s.len() - 1, text);
    if s.len() > 1 {
        assert(s.drop_last()[0] == s[0]);
        assert(or_ms(s)[s.len() - 1].char_start == or_ms(s)[s.len() - 2].char_end);
    }
}

/// An OR path may have its last step replaced by an OR step that starts at the same place (by
/// the zero step itself, if it is the only step).
proof fn lemma_or_path_replace(s: Seq<OrStep>, st: OrStep, o: OrNode, text: Seq<char>)
    requires
        or_path_ok(s, o, text),
        or_step_ok(st, o, text),
        st.matched.char_start == s.last().matched.char_start,
        s.len() == 1 ==> st == s.last(),
    ensures
        or_path_ok(s.drop_last().push(st), o, text),
        s.len() > 1 ==> s.drop_last().push(st)[0] == s[0],
{
    lemma_or_path_pop(s, o, text);
    lemma_or_steps_push(s.drop_last(), o, st, text);
    assert(or_ms(s.drop_last().push(st)) =~= or_ms(s).drop_last().push(st.matched));
    lemma_chain_replace_last(or_ms(s), st.matched, text);
    if s.len() == 1 {
        assert(s.drop_last().push(st) =~= s);
    } else {
        assert(s.drop_last().push(st)[0] == s[0]);
    }
}

/// Adding a walk of the next node, starting where the children end, keeps the children walks.
proof fn lemma_children_push(ps: Seq<Path>, ns: Seq<Node>, start: int, p: Path, text: Seq<char>)
    requires
        children_ok(ps, ns, start, text),
        ps.len() < ns.len(),
        path_ok(p, ns[ps.len() as int], text),
        path_check(p, ns[ps.len() as int]) == 0,
        path_start(p) == children_end(ps, start),
    ensures
        children_ok(ps.push(p), ns, start, text),
        children_end(ps.push(p), start) == path_end(p),
    decreases ps.len(),
{
    if ps.len() > 0 {
        assert(ps.push(p).drop_first() =~= ps.drop_first().push(p));
        assert(ns.drop_first()[ps.drop_first().len() as int] == ns[ps.len() as int]);
        if ps.len() > 1 {
            assert(ps.drop_first().last() == ps.last());
        }
        assert(ps.push(p)[0] == ps[0]);
        lemma_children_push(ps.drop_first(), ns.drop_first(), path_end(ps[0]), p, text);
    } else {
        assert(ps.push(p).drop_first() =~= Seq::<Path>::empty());
        assert(ps.push(p)[0] == p);
        assert(children_ok(Seq::<Path>::empty(), ns.drop_first(), path_end(p), text));
    }
}

/// The children walks without their last one are children walks, and the last one walks its
/// node from where the others end, within its limits.
proof fn lemma_children_pop(ps: Seq<Path>, ns: Seq<Node>, start: int, text: Seq<char>)
    requires
        children_ok(ps, ns, start, text),
        ps.len() > 0,
    ensures
        ps.len() <= ns.len(),
        children_ok(ps.drop_last(), ns, start, text),
        path_ok(ps.last(), ns[ps.len() - 1], text),
        path_check(ps.last(), ns[ps.len() - 1]) == 0,
        path_start(ps.last()) == children_end(ps.drop_last(), start),
    decreases ps.len(),
{
    if ps.len() > 1 {
        lemma_children_pop(ps.drop_first(), ns.drop_first(), path_end(ps[0]), text);
        assert(ps.drop_last().drop_first() =~= ps.drop_first().drop_last());
        assert(ps.drop_first().last() == ps.last());
        assert(ns.drop_first()[ps.drop_first().len() - 1] == ns[ps.len() - 1]);
        if ps.len() > 2 {
            assert(ps.drop_first().drop_last().last() == ps.drop_last().last());
        } else {
            assert(ps.drop_last().last() == ps[0]);
        }
    } else {
        assert(ps.drop_last() =~= Seq::<Path>::empty());
        assert(ps.drop_first() =~= Seq::<Path>::empty());
    }
}

/// Children walks that start at **start** end at or after it.
proof fn lemma_children_start_le(ps: Seq<Path>, ns: Seq<Node>, start: int, text: Seq<char>)
    requires
        children_ok(ps, ns, start, text),
    ensures
        start <= children_end(ps, start),
    decreases ps.len(),
{
    if ps.len() > 0 {
        lemma_path_facts(ps[0], ns[0], text);
        lemma_children_start_le(ps.drop_first(), ns.drop_first(), path_end(ps[0]), text);
        if ps.len() > 1 {
            assert(ps.drop_first().last() == ps.last());
        }
    }
}

/// The Limits of the node a path walks (those of its first step).
pub open spec fn path_limits(p: Path) -> Limits {
    match p {
        Path::Chars(s) => s@[0].node.limits,
        Path::Special(s) => s@[0].node.limits,
        Path::Range(s) => s@[0].node.limits,
        Path::And(s) => s@[0].node.limits,
        Path::Or(s) => s@[0].node.limits,
        Path::Empty => Limits::spec_default(),
    }
}

/// A walk of **n** has at least one step, lies in the text from its start, and has the Limits of
/// the node it walks.
proof fn lemma_path_facts(p: Path, n: Node, text: Seq<char>)
    requires
        path_ok(p, n, text),
    ensures
        path_len(p) >= 1,
        path_limits(p) == node_limits(node_target(n)),
        path_positioned(p, path_start(p), text),
        0 <= path_start(p) <= path_end(p) <= text.len(),
{
    match p {
        Path::And(s) => {
            if let Node::And(a) = node_target(n) {
                lemma_and_steps_index(s@, a, text);
                assert(and_step_ok(s@[0], a, text));
            }
        },
        Path::Or(s) => {
            if let Node::Or(o) = node_target(n) {
                lemma_or_steps_index(s@, o, text);
                assert(or_step_ok(s@[0], o, text));
            }
        },
        Path::Chars(s) => {
            assert(*s@[0].node == node_target(n)->Chars_0);
        },
        Path::Special(s) => {
            assert(*s@[0].node == node_target(n)->Special_0);
        },
        Path::Range(s) => {
            assert(*s@[0].node == node_target(n)->Range_0);
        },
        Path::Empty => {},
    }
    lemma_chain_mono(path_ms(p), text, path_ms(p).len() - 1);
    assert(matched_ok(path_ms(p)[path_ms(p).len() - 1], text));
}

/// A finished node walks a finished node.
proof fn lemma_target_resolved(n: Node)
    requires
        node_resolved(n),
    ensures
        node_resolved(node_target(n)),
        !(node_target(n) is Def),
        !(node_target(n) is Empty),
    decreases n,
{
    if let Node::Def(d) = n {
        lemma_target_resolved(*d.node);
    }
}

impl<'a> Path<'a> {
    /// checks whether the path is the special **Empty** path
    pub fn is_none(&self) -> (r: bool)
        ensures
            r == (*self is Empty),
    {
        match self {
            Path::Empty => true,
            _ => false,
        }
    }

    /// whether the path has no steps
    pub fn is_empty(&self) -> (r: bool)
        ensures
            r == (path_len(*self) == 0),
    {
        self.len() == 0
    }

    /// length of the **Path** (the number of **Step**s it has)
    pub fn len(&self) -> (n: usize)
        ensures
            n == path_len(*self),
    {
        match self {
            Path::Chars(steps) => steps.len(),
            Path::Special(steps) => steps.len(),
            Path::Range(steps) => steps.len(),
            Path::And(steps) => steps.len(),
            Path::Or(steps) => steps.len(),
            Path::Empty => 0,
        }
    }

    /// The first and last matches of the path.
    fn first_last(&self) -> (r: (Matched, Matched))
        requires
            path_len(*self) >= 1,
        ensures
            r.0 == path_ms(*self)[0],
            r.1 == path_ms(*self).last(),
    {
        match self {
            Path::Chars(steps) => (steps[0].matched, steps[steps.len() - 1].matched),
            Path::Special(steps) => (steps[0].matched, steps[steps.len() - 1].matched),
            Path::Range(steps) => (steps[0].matched, steps[steps.len() - 1].matched),
            Path::And(steps) => (steps[0].matched, steps[steps.len() - 1].matched),
            Path::Or(steps) => (steps[0].matched, steps[steps.len() - 1].matched),
            Path::Empty => vstd::pervasive::unreached(),
        }
    }

    /// gets the range of the path, using bytes; for a walk of a tree over a text, the start
    /// comes no later than the end
    pub fn range(&self) -> (r: (usize, usize))
        requires
            path_len(*self) >= 1,
        ensures
            r.0 == path_ms(*self)[0].start,
            r.1 == path_ms(*self).last().end,
            (exists|n: Node, text: Seq<char>| path_ok(*self, n, text)) ==> r.0 <= r.1,
    {
        proof {
            if exists|n: Node, text: Seq<char>| path_ok(*self, n, text) {
                let (n, text) = choose|n: Node, text: Seq<char>| path_ok(*self, n, text);
                law_walk_range(*self, n, text);
            }
        }
        let (first, last) = self.first_last();
        (first.start, last.end)
    }

    /// gets the byte count of the end of the path
    pub fn end(&self) -> (e: usize)
        requires
            path_len(*self) >= 1,
        ensures
            e == path_ms(*self).last().end,
    {
        let (_, last) = self.first_last();
        last.end
    }

    /// the character position of the start of the path
    pub fn char_start(&self) -> (b: usize)
        requires
            path_len(*self) >= 1,
        ensures
            b == path_start(*self),
    {
        let (first, _) = self.first_last();
        first.char_start
    }

    /// the character position of the end of the path
    pub fn char_end(&self) -> (e: usize)
        requires
            path_len(*self) >= 1,
        ensures
            e == path_end(*self),
    {
        let (_, last) = self.first_last();
        last.char_end
    }

    /// the length of the path, in bytes
    pub fn match_len(&self) -> (n: usize)
        requires
            path_len(*self) >= 1,
            path_ms(*self)[0].start <= path_ms(*self).last().end,
        ensures
            n == path_ms(*self).last().end - path_ms(*self)[0].start,
    {
        let (start, end) = self.range();
        end - start
    }

    /// gets the part of the text matched by this **Path**
    pub fn matched_string(&self, text: &Text) -> (s: String)
        requires
            path_len(*self) >= 1,
            path_start(*self) <= path_end(*self) <= text@.len(),
        ensures
            s@ == text@.subrange(path_start(*self), path_end(*self)),
    {
        let (first, last) = self.first_last();
        text.substring(first.char_start, last.char_end)
    }

    /// returns ths **Limits** object for the Path
    pub fn limits(&self) -> (l: Limits)
        requires
            path_len(*self) >= 1,
        ensures
            l == path_limits(*self),
    {
        match self {
            Path::Chars(steps) => steps[0].node.limits,
            Path::Special(steps) => steps[0].node.limits,
            Path::Range(steps) => steps[0].node.limits,
            Path::And(steps) => steps[0].node.limits,
            Path::Or(steps) => steps[0].node.limits,
            Path::Empty => vstd::pervasive::unreached(),
        }
    }

    /// the name of the kind of node the path walks
    pub fn node_type(&self) -> (s: &'static str)
        ensures
            s@ == (match *self {
                Path::Chars(_) => "Chars"@,
                Path::Special(_) => "Special"@,
                Path::Range(_) => "Range"@,
                Path::And(_) => "And"@,
                Path::Or(_) => "Or"@,
                Path::Empty => "None"@,
            }),
    {
        match self {
            Path::Chars(_) => "Chars",
            Path::Special(_) => "Special",
            Path::Range(_) => "Range",
            Path::And(_) => "And",
            Path::Or(_) => "Or",
            Path::Empty => "None",
        }
    }
}

/// A node whose first walk is always within its limits: one that may be repeated zero times,
/// or an AND node whose children all have this property, or an OR node with an alternative that
/// has it (each within limits that admit a repetition count).
pub open spec fn sure_walk(n: Node) -> bool
    decreases n,
{
    match n {
        Node::Chars(c) => c.limits.min == 0,
        Node::Special(c) => c.limits.min == 0,
        Node::Range(c) => c.limits.min == 0,
        Node::And(a) => a.limits.min == 0 || (a.limits.min <= a.limits.max && all_sure(a.nodes@)),
        Node::Or(o) => o.limits.min == 0 || (o.limits.min <= o.limits.max && any_sure(o.nodes@)),
        Node::Def(d) => sure_walk(*d.node),
        Node::Empty => false,
    }
}

/// Every node of **s** has a sure walk.
pub open spec fn all_sure(s: Seq<Node>) -> bool
    decreases s,
{
    if s.len() == 0 {
        true
    } else {
        sure_walk(s[0]) && all_sure(s.drop_first())
    }
}

/// Some node of **s** has a sure walk.
pub open spec fn any_sure(s: Seq<Node>) -> bool
    decreases s,
{
    if s.len() == 0 {
        false
    } else {
        sure_walk(s[0]) || any_sure(s.drop_first())
    }
}

/// **all_sure** and **any_sure** speak of the elements.
proof fn lemma_sure_elements(s: Seq<Node>)
    ensures
        all_sure(s) ==> forall|j: int| 0 <= j < s.len() ==> sure_walk(#[trigger] s[j]),
        any_sure(s) ==> exists|j: int| 0 <= j < s.len() && sure_walk(#[trigger] s[j]),
    decreases s.len(),
{
    if s.len() > 0 {
        lemma_sure_elements(s.drop_first());
        if all_sure(s) {
            assert forall|j: int| 0 <= j < s.len() implies sure_walk(#[trigger] s[j]) by {
                if j > 0 {
                    assert(s[j] == s.drop_first()[j - 1]);
                }
            }
        }
        if any_sure(s) && !sure_walk(s[0]) {
            let j = choose|j: int| 0 <= j < s.drop_first().len() && sure_walk(#[trigger] s.drop_first()[j]);
            assert(s[j + 1] == s.drop_first()[j]);
        }
    }
}

/// A first walk of a node that may be repeated zero times, or that went as far as its first
/// walk goes with limits that admit that count, is within its limits.
proof fn lemma_sure_walk_ok(p: Path, n: Node)
    requires
        1 <= path_len(p) <= node_limits(node_target(n)).spec_initial_walk_limit() + 1,
        node_limits(node_target(n)).min == 0 || (node_limits(node_target(n)).min <= node_limits(node_target(n)).max
            && path_len(p) == node_limits(node_target(n)).spec_initial_walk_limit() + 1),
    ensures
        path_check(p, n) == 0,
{
}

/// The result of a walk of **n** from position **start**.
pub open spec fn walk_result(r: Result<Path, Error>, n: Node, start: int, text: Seq<char>) -> bool {
    &&& r matches Ok(p) ==> path_ok(p, n, text) && path_start(p) == start
    &&& r matches Err(e) ==> e.code == 200 || e.code == 202
}

impl Node {
    /// Distributes a walk request to the proper XXXStep struct (a definition reference walks its
    /// definition). **gas** is the budget of steps left to the walk.
    pub fn walk_with<'a>(&'a self, matched: Matched, text: &Text, gas: &mut u64) -> (r: Result<Path<'a>, Error>)
        requires
            node_resolved(*self),
            matched_ok(matched, text@),
            matched.char_start == matched.char_end,
        ensures
            walk_result(r, *self, matched.char_start as int, text@),
            r matches Ok(p) ==> 1 <= path_len(p) <= node_limits(node_target(*self)).spec_initial_walk_limit() + 1,
            r matches Ok(p) ==> (sure_walk(*self) ==> path_check(p, *self) == 0),
            walk_agrees(r, walk_model(*self, matched.char_start as int, text@, *old(gas) as nat).0),
            *final(gas) as nat == walk_model(*self, matched.char_start as int, text@, *old(gas) as nat).1,
            r is Ok ==> *final(gas) < *old(gas),
            *final(gas) <= *old(gas),
        decreases *old(gas),
    {
        proof {
        }
        tick(gas)?;
        match self {
            Node::Chars(c) => CharsStep::walk(c, matched, text),
            Node::Special(c) => SpecialStep::walk(c, matched, text),
            Node::Range(c) => RangeStep::walk(c, matched, text),
            Node::And(a) => AndStep::walk_with(a, matched, text, gas),
            Node::Or(o) => OrStep::walk_with(o, matched, text, gas),
            Node::Def(d) => d.node.walk_with(matched, text, gas),
            Node::Empty => vstd::pervasive::unreached(),
        }
    }

    /// Walks the node from **matched** with the full step budget.
    pub fn walk<'a>(&'a self, matched: Matched, text: &Text) -> (r: Result<Path<'a>, Error>)
        requires
            node_resolved(*self),
            matched_ok(matched, text@),
            matched.char_start == matched.char_end,
        ensures
            walk_result(r, *self, matched.char_start as int, text@),
            walk_agrees(r, walk_model(*self, matched.char_start as int, text@, SEARCH_BUDGET as nat).0),
    {
        let mut gas = SEARCH_BUDGET;
        self.walk_with(matched, text, &mut gas)
    }
}

impl<'a> AndStep<'a> {
    /// start a Path using an And node, matching as many times as it can subject to the matching algorithm (greedy or lazy)
    pub fn walk(node: &'a AndNode, matched: Matched, text: &Text) -> (r: Result<Path<'a>, Error>)
        requires
            node_resolved(Node::And(*node)),
            matched_ok(matched, text@),
            matched.char_start == matched.char_end,
        ensures
            walk_result(r, Node::And(*node), matched.char_start as int, text@),
            walk_agrees(r, and_walk_model(*node, matched.char_start as int, text@, SEARCH_BUDGET as nat).0),
    {
        let mut gas = SEARCH_BUDGET;
        AndStep::walk_with(node, matched, text, &mut gas)
    }

    /// **walk** with a step budget
    #[verifier::rlimit(100)]
    fn walk_with(node: &'a AndNode, matched: Matched, text: &Text, gas: &mut u64) -> (r: Result<Path<'a>, Error>)
        requires
            node_resolved(Node::And(*node)),
            matched_ok(matched, text@),
            matched.char_start == matched.char_end,
        ensures
            walk_result(r, Node::And(*node), matched.char_start as int, text@),
            r matches Ok(p) ==> 1 <= path_len(p) <= node.limits.spec_initial_walk_limit() + 1,
            r matches Ok(p) ==> (sure_walk(Node::And(*node)) ==> path_check(p, Node::And(*node)) == 0),
            walk_agrees(r, and_walk_model(*node, matched.char_start as int, text@, *old(gas) as nat).0),
            *final(gas) as nat == and_walk_model(*node, matched.char_start as int, text@, *old(gas) as nat).1,
            r is Ok ==> *final(gas) < *old(gas),
            r matches Ok(p) ==> forall|i: int| 0 < i < path_len(p) ==> (#[trigger] p->And_0@[i]).child_paths.len() == node.nodes.len(),
            *final(gas) <= *old(gas),
        decreases *old(gas),
    {
        let ghost total = and_walk_model(*node, matched.char_start as int, text@, *gas as nat);
        tick(gas)?;
        let mut steps: Vec<AndStep<'a>> = Vec::new();
        steps.push(AndStep { node, matched, child_paths: Vec::new() });
        let limit = node.limits.initial_walk_limit();
        proof {
            assert(steps@ =~= seq![steps@[0]]);
            lemma_and_views_one(steps@[0]);
            assert(steps@[0].child_paths@ =~= Seq::<Path>::empty());
            assert(and_views(steps@) =~= seq![AndStepView { span: (matched.char_start as int, matched.char_start as int), kids: Seq::empty() }]);
            assert(*old(gas) > 0);
            assert(total == and_walk_loop(*node, seq![AndStepView { span: (matched.char_start as int, matched.char_start as int), kids: Seq::empty() }],
                node.limits.spec_initial_walk_limit() as int, text@, (*old(gas) - 1) as nat));
            assert(and_ms(steps@) =~= seq![matched]);
            assert(and_step_ok(steps@[0], *node, text@));
            lemma_and_steps_push(Seq::<AndStep>::empty(), *node, steps@[0], text@);
            assert(Seq::<AndStep>::empty().push(steps@[0]) =~= steps@);
        }
        while steps.len() <= limit
            invariant_except_break
                and_walk_loop(*node, and_views(steps@), limit as int, text@, *gas as nat) == total,
            invariant
                1 <= steps.len() <= limit + 1,
                limit == node.limits.spec_initial_walk_limit(),
                node_resolved(Node::And(*node)),
                and_path_ok(steps@, *node, text@),
                steps@[0].matched == matched,
                forall|i: int| 0 < i < steps.len() ==> (#[trigger] steps@[i]).child_paths.len() == node.nodes.len(),
                *gas < *old(gas),
                and_views(steps@).len() == steps.len(),
                total == and_walk_model(*node, matched.char_start as int, text@, *old(gas) as nat),
            ensures
                1 <= steps.len() <= limit + 1,
                and_path_ok(steps@, *node, text@),
                steps@[0].matched == matched,
                forall|i: int| 0 < i < steps.len() ==> (#[trigger] steps@[i]).child_paths.len() == node.nodes.len(),
                *gas < *old(gas),
                all_sure(node.nodes@) ==> steps.len() == limit + 1,
                total == (Ok::<PathView, usize>(PathView::And(and_views(steps@))), *gas as nat),
            decreases limit + 1 - steps.len(),
        {
            let len = steps.len();
            proof {
                lemma_and_path_pop(steps@, *node, text@);
                lemma_matched_bytes(steps@[len - 1].matched, text@);
                lemma_and_steps_index(steps@, *node, text@);
                assert(and_step_ok(steps@[len - 1], *node, text@));
                lemma_and_views(steps@);
            }
            if len % 30 == 29 {
                loop_check(&steps[len - 1].matched, &node.limits)?;
            }
            match steps[len - 1].step(text, gas)? {
                Some(st) => {
                    proof {
                        lemma_and_path_push(steps@, st, *node, text@);
                        lemma_and_views_push(steps@, st);
                    }
                    steps.push(st);
                },
                None => {
                    proof {
                        lemma_sure_elements(node.nodes@);
                    }
                    break;
                },
            }
        }
        proof {
            assert(and_ms(steps@)[0] == matched);
            if sure_walk(Node::And(*node)) {
                lemma_sure_walk_ok(Path::And(steps), Node::And(*node));
            }
        }
        Ok(Path::And(steps))
    }

    /// try to take a single step matching an And node: walk each child in turn from where the
    /// one before ended, backing off when a child cannot be matched within its limits.
    fn step(&self, text: &Text, gas: &mut u64) -> (r: Result<Option<AndStep<'a>>, Error>)
        requires
            node_resolved(Node::And(*self.node)),
            matched_ok(self.matched, text@),
        ensures
            r matches Ok(Some(st)) ==> and_step_ok(st, *self.node, text@) && st.node == self.node
                && st.matched.char_start == self.matched.char_end
                && st.child_paths.len() == self.node.nodes.len(),
            r matches Ok(None) ==> exists|j: int| 0 <= j < self.node.nodes.len() && !sure_walk(#[trigger] self.node.nodes@[j]),
            and_step_agrees(r, and_step_model(*self.node, and_view(*self), text@, *old(gas) as nat).0),
            *final(gas) as nat == and_step_model(*self.node, and_view(*self), text@, *old(gas) as nat).1,
            r is Ok ==> *final(gas) < *old(gas),
            r matches Err(e) ==> e.code == 200 || e.code == 202,
            *final(gas) <= *old(gas),
        decreases *old(gas),
    {
        let ghost total = and_step_model(*self.node, and_view(*self), text@, *gas as nat);
        tick(gas)?;
        let a: &'a AndNode = self.node;
        proof {
            lemma_and_children(*a);
        }
        let mut step = AndStep { node: a, matched: self.matched.next(text), child_paths: Vec::new() };
        proof {
            lemma_and_views_one(step);
            assert(step.child_paths@ =~= Seq::<Path>::empty());
            assert(and_view(step) == AndStepView { span: (self.matched.char_end as int, self.matched.char_end as int), kids: Seq::empty() });
        }
        loop
            invariant_except_break
                and_step_loop(*a, and_view(step), text@, *gas as nat) == total,
            invariant
                total == and_step_model(*self.node, and_view(*self), text@, *old(gas) as nat),
                forall|j: int| 0 <= j < a.nodes.len() ==> #[trigger] node_resolved(a.nodes@[j]),
                node_resolved(Node::And(*a)),
                a == self.node,
                step.node == a,
                and_step_ok(step, *a, text@),
                step.matched.char_start == self.matched.char_end,
                *gas < *old(gas),
            ensures
                step.node == a,
                and_step_ok(step, *a, text@),
                step.matched.char_start == self.matched.char_end,
                step.child_paths.len() == a.nodes.len(),
                *gas < *old(gas),
                total == (Ok::<Option<AndStepView>, usize>(Some(and_view(step))), *gas as nat),
            decreases *gas,
        {
            proof {
                lemma_kids_view(step.child_paths@);
            }
            tick(gas)?;
            let child_len = step.child_paths.len();
            if child_len == a.nodes.len() {
                break;
            }
            let next = step.matched.next(text);
            let child_path = a.nodes[child_len].walk_with(next, text, gas)?;
            proof {
                lemma_path_facts(child_path, a.nodes@[child_len as int], text@);
                lemma_path_view(child_path);
            }
            if child_path.limits().check(child_path.len()) == 0 {
                let end = child_path.char_end();
                proof {
                    lemma_children_push(step.child_paths@, a.nodes@, step.matched.char_start as int, child_path, text@);
                    lemma_kids_view_push(step.child_paths@, child_path);
                }
                step.child_paths.push(child_path);
                step.matched.set_end(text, end);
            } else {
                let backed = step.back_off(text, gas)?;
                if !backed {
                    return Ok(None);
                }
            }
        }
        Ok(Some(step))
    }

    /// Back off a step after a failed match. It will back off repetitions until an untried one is found,
    /// leaving the **Node** in a state to proceed from there, or return **false** if the node cannot succeed.
    /// A lazy AND step does not back off.
    #[verifier::rlimit(100)]
    fn back_off(&mut self, text: &Text, gas: &mut u64) -> (r: Result<bool, Error>)
        requires
            node_resolved(Node::And(*old(self).node)),
            and_step_ok(*old(self), *old(self).node, text@),
        ensures
            final(self).node == old(self).node,
            final(self).matched.char_start == old(self).matched.char_start,
            final(self).child_paths.len() <= old(self).child_paths.len(),
            r == Ok::<bool, Error>(true) ==> and_step_ok(*final(self), *final(self).node, text@)
                && final(self).child_paths.len() >= 1,
            r == Ok::<bool, Error>(false) ==> final(self).matched == old(self).matched,
            old(self).node.limits.spec_lazy() ==> r == Ok::<bool, Error>(false) && *final(self) == *old(self),
            r == Ok::<bool, Error>(true) ==> exists|k: int| 0 <= k < old(self).child_paths.len()
                && final(self).child_paths.len() == k + 1
                && final(self).child_paths@.take(k) == old(self).child_paths@.take(k)
                && #[trigger] final(self).child_paths@[k] != old(self).child_paths@[k],
            r == Ok::<bool, Error>(true) ==> *final(self) != *old(self),
            r == Ok::<bool, Error>(false) ==> final(self).child_paths@ == old(self).child_paths@.take(final(self).child_paths.len() as int),
            back_off_agrees(r, and_view(*final(self)), and_step_back_off_model(*old(self).node, and_view(*old(self)), text@, *old(gas) as nat)),
            *final(gas) as nat == and_step_back_off_model(*old(self).node, and_view(*old(self)), text@, *old(gas) as nat).2,
            r is Ok && !old(self).node.limits.spec_lazy() ==> *final(gas) < *old(gas),
            r == Ok::<bool, Error>(false) && !old(self).node.limits.spec_lazy() ==>
                (final(self).child_paths.len() == 0 || old(self).node.limits.spec_check(final(self).child_paths.len() as int) != 0)
                && (old(self).child_paths.len() == 0 || final(self).child_paths.len() < old(self).child_paths.len()),
            r matches Err(e) ==> e.code == 200 || e.code == 202,
            *final(gas) <= *old(gas),
        decreases *old(gas),
    {
        let ghost total = and_step_back_off_model(*self.node, and_view(*self), text@, *gas as nat);
        let limits = self.node.limits;
        if limits.lazy() {
            return Ok(false);
        }
        tick(gas)?;
        let a: &'a AndNode = self.node;
        proof {
            lemma_and_children(*a);
        }
        let ghost start = self.matched.char_start as int;
        let mut ret = true;
        let ghost mut kk: int = 0;
        loop
            invariant_except_break
                ret,
                self.child_paths@ == old(self).child_paths@.take(self.child_paths.len() as int),
                and_back_off_loop(*a, and_view(*self), text@, *gas as nat) == total,
            invariant
                total == and_step_back_off_model(*old(self).node, and_view(*old(self)), text@, *old(gas) as nat),
                forall|j: int| 0 <= j < a.nodes.len() ==> #[trigger] node_resolved(a.nodes@[j]),
                a == self.node,
                self.node == old(self).node,
                self.matched == old(self).matched,
                start == self.matched.char_start,
                matched_ok(self.matched, text@),
                self.child_paths.len() <= old(self).child_paths.len(),
                self.child_paths.len() <= a.nodes.len(),
                children_ok(self.child_paths@, a.nodes@, start, text@),
                limits == a.limits,
                !limits.spec_lazy(),
                *gas < *old(gas),
            ensures
                self.node == old(self).node,
                self.matched == old(self).matched,
                start == self.matched.char_start,
                matched_ok(self.matched, text@),
                self.child_paths.len() <= old(self).child_paths.len(),
                ret ==> children_ok(self.child_paths@, a.nodes@, start, text@) && self.child_paths.len() >= 1
                    && self.child_paths.len() <= a.nodes.len(),
                ret ==> 0 <= kk < old(self).child_paths.len() && self.child_paths.len() == kk + 1
                    && self.child_paths@.take(kk) == old(self).child_paths@.take(kk)
                    && self.child_paths@[kk] != old(self).child_paths@[kk],
                !ret ==> self.child_paths@ == old(self).child_paths@.take(self.child_paths.len() as int),
                !ret ==> (self.child_paths.len() == 0 || limits.spec_check(self.child_paths.len() as int) != 0)
                    && (old(self).child_paths.len() == 0 || self.child_paths.len() < old(self).child_paths.len()),
                ret ==> total == (Ok::<bool, usize>(true), AndStepView { span: (start, path_end(self.child_paths@.last())),
                    kids: kids_view(self.child_paths@) }, *gas as nat),
                !ret ==> total == (Ok::<bool, usize>(false), and_view(*self), *gas as nat),
                *gas < *old(gas),
            decreases self.child_paths.len(),
        {
            let ghost before = self.child_paths@;
            match self.child_paths.pop() {
                Some(mut last_path) => {
                    let k = self.child_paths.len();
                    let ghost popped = last_path;
                    proof {
                        lemma_children_pop(before, a.nodes@, start, text@);
                        assert(popped == old(self).child_paths@[k as int]);
                        assert(self.child_paths@ =~= old(self).child_paths@.take(k as int));
                    }
                    proof {
                        lemma_kids_view(before);
                        lemma_views_drop_last();
                        assert(before.drop_last() == self.child_paths@);
                        lemma_path_facts(popped, a.nodes@[k as int], text@);
                    }
                    let backed = last_path.back_off(Ghost(a.nodes@[k as int]), text, gas)?;
                    proof {
                        lemma_path_view(last_path);
                    }
                    if backed {
                        proof {
                            lemma_kids_view_push(self.child_paths@, last_path);
                            lemma_path_facts(last_path, a.nodes@[k as int], text@);
                            lemma_children_push(self.child_paths@, a.nodes@, start, last_path, text@);
                            kk = k as int;
                        }
                        self.child_paths.push(last_path);
                        proof {
                            assert(self.child_paths@.take(kk) =~= old(self).child_paths@.take(kk));
                            assert(self.child_paths@[kk] == last_path);
                        }
                        break;
                    }
                },
                None => {
                    ret = false;
                    break;
                },
            }
            // backed off until reps are too few, discard
            if limits.check(self.child_paths.len()) != 0 {
                ret = false;
                break;
            }
        }
        if ret {
            let last = self.child_paths.len() - 1;
            proof {
                lemma_children_pop(self.child_paths@, a.nodes@, start, text@);
                lemma_path_facts(self.child_paths@[last as int], a.nodes@[last as int], text@);
                lemma_children_start_le(self.child_paths@, a.nodes@, start, text@);
            }
            let end = self.child_paths[last].char_end();
            self.matched.set_end(text, end);
        }
        Ok(ret)
    }
}

impl<'a> OrStep<'a> {
    /// start a Path using an Or node, matching as many times as it can subject to the matching algorithm (greedy or lazy)
    pub fn walk(node: &'a OrNode, matched: Matched, text: &Text) -> (r: Result<Path<'a>, Error>)
        requires
            node_resolved(Node::Or(*node)),
            matched_ok(matched, text@),
            matched.char_start == matched.char_end,
        ensures
            walk_result(r, Node::Or(*node), matched.char_start as int, text@),
            walk_agrees(r, or_walk_model(*node, matched.char_start as int, text@, SEARCH_BUDGET as nat).0),
    {
        let mut gas = SEARCH_BUDGET;
        OrStep::walk_with(node, matched, text, &mut gas)
    }

    /// **walk** with a step budget
    #[verifier::rlimit(100)]
    fn walk_with(node: &'a OrNode, matched: Matched, text: &Text, gas: &mut u64) -> (r: Result<Path<'a>, Error>)
        requires
            node_resolved(Node::Or(*node)),
            matched_ok(matched, text@),
            matched.char_start == matched.char_end,
        ensures
            walk_result(r, Node::Or(*node), matched.char_start as int, text@),
            r matches Ok(p) ==> 1 <= path_len(p) <= node.limits.spec_initial_walk_limit() + 1,
            r matches Ok(p) ==> (sure_walk(Node::Or(*node)) ==> path_check(p, Node::Or(*node)) == 0),
            walk_agrees(r, or_walk_model(*node, matched.char_start as int, text@, *old(gas) as nat).0),
            *final(gas) as nat == or_walk_model(*node, matched.char_start as int, text@, *old(gas) as nat).1,
            r is Ok ==> *final(gas) < *old(gas),
            *final(gas) <= *old(gas),
        decreases *old(gas),
    {
        let ghost total = or_walk_model(*node, matched.char_start as int, text@, *gas as nat);
        tick(gas)?;
        let mut steps: Vec<OrStep<'a>> = Vec::new();
        steps.push(OrStep { node, matched, child_path: Box::new(Path::Empty), which: 0 });
        let limit = node.limits.initial_walk_limit();
        proof {
            assert(steps@ =~= seq![steps@[0]]);
            lemma_or_views_one(steps@[0]);
            assert(or_views(steps@) =~= seq![OrStepView { span: (matched.char_start as int, matched.char_start as int), which: 0, kid: PathView::Empty }]);
            assert(or_ms(steps@) =~= seq![matched]);
            assert(or_step_ok(steps@[0], *node, text@));
            lemma_or_steps_push(Seq::<OrStep>::empty(), *node, steps@[0], text@);
            assert(Seq::<OrStep>::empty().push(steps@[0]) =~= steps@);
        }
        while steps.len() <= limit
            invariant_except_break
                or_walk_loop(*node, or_views(steps@), limit as int, text@, *gas as nat) == total,
            invariant
                1 <= steps.len() <= limit + 1,
                limit == node.limits.spec_initial_walk_limit(),
                node_resolved(Node::Or(*node)),
                or_path_ok(steps@, *node, text@),
                steps@[0].matched == matched,
                *gas < *old(gas),
                or_views(steps@).len() == steps.len(),
                total == or_walk_model(*node, matched.char_start as int, text@, *old(gas) as nat),
            ensures
                1 <= steps.len() <= limit + 1,
                or_path_ok(steps@, *node, text@),
                steps@[0].matched == matched,
                *gas < *old(gas),
                any_sure(node.nodes@) ==> steps.len() == limit + 1,
                total == (Ok::<PathView, usize>(PathView::Or(or_views(steps@))), *gas as nat),
            decreases limit + 1 - steps.len(),
        {
            let len = steps.len();
            proof {
                lemma_or_path_pop(steps@, *node, text@);
                lemma_or_steps_index(steps@, *node, text@);
                assert(or_step_ok(steps@[len - 1], *node, text@));
                lemma_sure_elements(node.nodes@);
                lemma_or_views(steps@);
            }
            match steps[len - 1].step(text, gas)? {
                Some(st) => {
                    proof {
                        lemma_matched_bytes(st.matched, text@);
                    }
                    if len % 30 == 29 {
                        loop_check(&st.matched, &node.limits)?;
                    }
                    proof {
                        lemma_or_path_push(steps@, st, *node, text@);
                        lemma_or_views_push(steps@, st);
                    }
                    steps.push(st);
                },
                None => {
                    break;
                },
            }
        }
        proof {
            assert(or_ms(steps@)[0] == matched);
            if sure_walk(Node::Or(*node)) {
                lemma_sure_walk_ok(Path::Or(steps), Node::Or(*node));
            }
        }
        Ok(Path::Or(steps))
    }

    /// try to take a single step matching an Or node: the first alternative whose walk is within
    /// its limits
    fn step(&self, text: &Text, gas: &mut u64) -> (r: Result<Option<OrStep<'a>>, Error>)
        requires
            node_resolved(Node::Or(*self.node)),
            matched_ok(self.matched, text@),
        ensures
            r matches Ok(Some(st)) ==> or_step_ok(st, *self.node, text@) && st.node == self.node
                && st.matched.char_start == self.matched.char_end
                && st.which < self.node.nodes.len() && !(*st.child_path is Empty),
            r matches Ok(Some(st)) ==> forall|i: int| 0 <= i < st.which ==> !sure_walk(#[trigger] self.node.nodes@[i]),
            r matches Ok(None) ==> forall|i: int| 0 <= i < self.node.nodes.len() ==> !sure_walk(#[trigger] self.node.nodes@[i]),
            or_step_agrees(r, or_step_model(*self.node, or_view(*self), text@, *old(gas) as nat).0),
            *final(gas) as nat == or_step_model(*self.node, or_view(*self), text@, *old(gas) as nat).1,
            r is Ok ==> *final(gas) < *old(gas),
            r matches Err(e) ==> e.code == 200 || e.code == 202,
            *final(gas) <= *old(gas),
        decreases *old(gas),
    {
        let ghost total = or_step_model(*self.node, or_view(*self), text@, *gas as nat);
        tick(gas)?;
        let o: &'a OrNode = self.node;
        proof {
            lemma_or_children(*o);
        }
        let from = self.matched.next(text);
        let mut step = OrStep { node: o, matched: from, which: 0, child_path: Box::new(Path::Empty) };
        loop
            invariant_except_break
                or_step_loop(*o, from.char_start as int, step.which as int, text@, *gas as nat) == total,
            invariant
                total == or_step_model(*self.node, or_view(*self), text@, *old(gas) as nat),
                forall|j: int| 0 <= j < o.nodes.len() ==> #[trigger] node_resolved(o.nodes@[j]),
                o == self.node,
                step.node == o,
                step.matched == from,
                matched_ok(from, text@),
                from.char_start == from.char_end,
                from.char_start == self.matched.char_end,
                step.which <= o.nodes.len(),
                forall|i: int| 0 <= i < step.which ==> !sure_walk(#[trigger] o.nodes@[i]),
                *gas < *old(gas),
            ensures
                step.which < o.nodes.len(),
                forall|i: int| 0 <= i < step.which ==> !sure_walk(#[trigger] o.nodes@[i]),
                step.node == o,
                step.matched == from,
                path_ok(*step.child_path, o.nodes@[step.which as int], text@),
                path_start(*step.child_path) == from.char_start,
                *gas < *old(gas),
                total == (Ok::<Option<OrStepView>, usize>(Some(OrStepView { span: (from.char_start as int, path_end(*step.child_path)),
                    which: step.which as int, kid: path_view(*step.child_path) })), *gas as nat),
            decreases o.nodes.len() - step.which,
        {
            if step.which == o.nodes.len() {
                return Ok(None);
            }
            let cp = o.nodes[step.which].walk_with(from, text, gas)?;
            proof {
                lemma_path_facts(cp, o.nodes@[step.which as int], text@);
                lemma_path_view(cp);
            }
            let ok = cp.limits().check(cp.len()) == 0;
            step.child_path = Box::new(cp);
            if ok {
                break;
            }
            step.which = step.which + 1;
        }
        proof {
            lemma_path_facts(*step.child_path, o.nodes@[step.which as int], text@);
        }
        let end = step.child_path.char_end();
        step.matched.set_end(text, end);
        Ok(Some(step))
    }

    /// Back off an OR step: back off its alternative's path, or else go on to the next
    /// alternative that can be walked within its limits. The zero repetition, which holds no
    /// path, and a step whose alternatives have run out do not back off.
    #[verifier::rlimit(100)]
    fn back_off(&mut self, text: &Text, gas: &mut u64) -> (r: Result<bool, Error>)
        requires
            node_resolved(Node::Or(*old(self).node)),
            or_step_ok(*old(self), *old(self).node, text@),
        ensures
            final(self).node == old(self).node,
            final(self).matched.char_start == old(self).matched.char_start,
            r is Ok ==> or_step_ok(*final(self), *final(self).node, text@),
            r == Ok::<bool, Error>(true) ==> !(*final(self).child_path is Empty) && final(self).which < final(self).node.nodes.len(),
            *old(self).child_path is Empty ==> r == Ok::<bool, Error>(false) && *final(self) == *old(self),
            old(self).which >= old(self).node.nodes.len() ==> r == Ok::<bool, Error>(false) && *final(self) == *old(self),
            r == Ok::<bool, Error>(true) ==> (final(self).which == old(self).which && *final(self).child_path != *old(self).child_path)
                || final(self).which > old(self).which,
            r == Ok::<bool, Error>(true) ==> *final(self) != *old(self),
            back_off_agrees(r, or_view(*final(self)), or_step_back_off_model(*old(self).node, or_view(*old(self)), text@, *old(gas) as nat)),
            *final(gas) as nat == or_step_back_off_model(*old(self).node, or_view(*old(self)), text@, *old(gas) as nat).2,
            r == Ok::<bool, Error>(false) && !(*old(self).child_path is Empty) && old(self).which < old(self).node.nodes.len()
                ==> final(self).which == final(self).node.nodes.len(),
            r matches Err(e) ==> e.code == 200 || e.code == 202,
            *final(gas) <= *old(gas),
        decreases *old(gas),
    {
        let ghost total = or_step_back_off_model(*self.node, or_view(*self), text@, *gas as nat);
        if self.child_path.is_none() || self.which >= self.node.nodes.len() {
            return Ok(false);
        }
        tick(gas)?;
        let o: &'a OrNode = self.node;
        proof {
            lemma_or_children(*o);
        }
        let ghost start = self.matched.char_start as int;
        let ret: bool;
        loop
            invariant_except_break
                or_back_off_loop(*o, or_view(*self), text@, *gas as nat) == total,
                self.which < o.nodes.len(),
                path_ok(*self.child_path, o.nodes@[self.which as int], text@),
                path_start(*self.child_path) == start,
                self.which > old(self).which || (self.which == old(self).which && *self.child_path == *old(self).child_path),
            invariant
                total == or_step_back_off_model(*old(self).node, or_view(*old(self)), text@, *old(gas) as nat),
                forall|j: int| 0 <= j < o.nodes.len() ==> #[trigger] node_resolved(o.nodes@[j]),
                o == self.node,
                self.node == old(self).node,
                start == old(self).matched.char_start,
                !(*old(self).child_path is Empty),
                start == self.matched.char_start,
                matched_ok(self.matched, text@),
                self.matched.start == byte_pos(text@, start),
                start <= text@.len(),
                self.which <= o.nodes.len(),
                *gas < *old(gas),
            ensures
                self.node == old(self).node,
                start == old(self).matched.char_start,
                start == self.matched.char_start,
                self.matched.start == byte_pos(text@, start),
                start <= text@.len(),
                self.which <= o.nodes.len(),
                matched_ok(self.matched, text@),
                ret ==> self.which < o.nodes.len() && path_ok(*self.child_path, o.nodes@[self.which as int], text@)
                    && path_start(*self.child_path) == start,
                !ret ==> self.which == o.nodes.len(),
                ret ==> (self.which == old(self).which && *self.child_path != *old(self).child_path)
                    || self.which > old(self).which,
                path_positioned(*self.child_path, start, text@),
                *gas < *old(gas),
                total == (Ok::<bool, usize>(ret), or_finish(or_view(*self)), *gas as nat),
            decreases o.nodes.len() - self.which,
        {
            let ghost w = self.which as int;
            let ghost st0 = or_view(*self);
            let ghost g0 = *gas as nat;
            proof {
                lemma_path_facts(*self.child_path, o.nodes@[w], text@);
                assert(st0.kid == path_view(*self.child_path) && st0.which == w && st0.span.0 == start);
                assert(or_back_off_loop(*o, st0, text@, g0) == total);
                let (rb0, kid0, f20) = path_back_off_model(st0.kid, o.nodes@[w], text@, g0);
                assert(rb0 is Err ==> total.0 == Err::<bool, usize>(rb0->Err_0) && total.2 == f20);
            }
            let backed = self.child_path.back_off(Ghost(o.nodes@[w]), text, gas)?;
            proof {
                lemma_path_view(*self.child_path);
            }
            if backed {
                ret = true;
                break;
            }
            self.which = self.which + 1;
            let st = self.matched.char_start;
            self.matched.set_end(text, st);
            if self.which >= o.nodes.len() {
                ret = false;
                break;
            }
            let cp = o.nodes[self.which].walk_with(self.matched, text, gas)?;
            proof {
                lemma_path_facts(cp, o.nodes@[self.which as int], text@);
                lemma_path_view(cp);
            }
            let ok = cp.limits().check(cp.len()) == 0;
            self.child_path = Box::new(cp);
            if ok {
                ret = true;
                break;
            }
        }
        proof {
            lemma_path_view(*self.child_path);
        }
        if !self.child_path.is_empty() {
            proof {
                lemma_chain_mono(path_ms(*self.child_path), text@, path_ms(*self.child_path).len() - 1);
                assert(matched_ok(path_ms(*self.child_path)[path_ms(*self.child_path).len() - 1], text@));
            }
            let end = self.child_path.char_end();
            self.matched.set_end(text, end);
        }
        Ok(ret)
    }
}

/// Whether the walks **p** and **q** are walks of the same kind whose first **k** steps are
/// the same.
pub open spec fn path_prefix_eq(p: Path, q: Path, k: int) -> bool {
    match (p, q) {
        (Path::Chars(a), Path::Chars(b)) => a@.take(k) == b@.take(k),
        (Path::Special(a), Path::Special(b)) => a@.take(k) == b@.take(k),
        (Path::Range(a), Path::Range(b)) => a@.take(k) == b@.take(k),
        (Path::And(a), Path::And(b)) => a@.take(k) == b@.take(k),
        (Path::Or(a), Path::Or(b)) => a@.take(k) == b@.take(k),
        (Path::Empty, Path::Empty) => true,
        _ => false,
    }
}

/// How backing off changes a walk (**b** telling whether it could back off): all its steps but
/// the last stay as they were; the walk keeps its length (its last step backed off), or a greedy
/// walk drops its last step, or a lazy walk takes one more step. A greedy walk that cannot back
/// off has dropped its last step; a lazy one keeps its length. A walk that backs off is a
/// different walk from the one before; the Empty walk does not back off.
pub open spec fn back_off_moves(b: bool, old_p: Path, new_p: Path) -> bool {
    let n = path_len(old_p) as int;
    let lazy = path_limits(old_p).spec_lazy();
    if old_p is Empty {
        !b && new_p == old_p
    } else {
        &&& path_prefix_eq(new_p, old_p, n - 1)
        &&& b ==> new_p != old_p && (path_len(new_p) == n || (!lazy && path_len(new_p) == n - 1)
            || (lazy && path_len(new_p) == n + 1))
        &&& !b ==> if lazy { path_len(new_p) == n } else { path_len(new_p) == n - 1 }
    }
}

/// Backing off a walk of a Chars, Special or Range node, whose steps are **s** and **t** after:
/// a greedy walk drops its last step and can back off if it is still within its limits; a lazy
/// walk takes one more step if its limits admit one more repetition and the node matches again
/// where the walk ends, and otherwise stays as it was. **possible** tells whether the node
/// matches again at the end of the walk.
pub open spec fn leaf_back_off<S>(s: Seq<S>, t: Seq<S>, l: Limits, possible: bool, b: bool) -> bool {
    if !l.spec_lazy() {
        t == s.drop_last() && b == (l.spec_check(s.len() - 1) == 0)
    } else {
        &&& b == (l.spec_check(s.len() + 1 as int) == 0 && possible)
        &&& b ==> t.len() == s.len() + 1 && t.take(s.len() as int) == s
        &&& !b ==> t == s
    }
}

/// What backing off a leaf walk gives, as **leaf_back_off** says, for the kind of walk it is.
pub open spec fn leaf_path_back_off(old_p: Path, new_p: Path, b: bool, text: Seq<char>) -> bool {
    match (old_p, new_p) {
        (Path::Chars(s), Path::Chars(t)) => leaf_back_off(s@, t@, s@[0].node.limits,
            chars_step_possible(*s@[0].node, s@.last().matched.char_end as int, text), b),
        (Path::Special(s), Path::Special(t)) => leaf_back_off(s@, t@, s@[0].node.limits,
            special_step_possible(*s@[0].node, s@.last().matched.char_end as int, text), b),
        (Path::Range(s), Path::Range(t)) => leaf_back_off(s@, t@, s@[0].node.limits,
            range_step_possible(*s@[0].node, s@.last().matched.char_end as int, text), b),
        _ => false,
    }
}

/// What backing off a walk of **n** gives: the path still lies in the text from where it
/// started, and if it could back off it is again a walk of **n** from there, which is within its
/// limits or has as many steps as before.
pub open spec fn back_off_result(r: Result<bool, Error>, old_p: Path, new_p: Path, n: Node, text: Seq<char>) -> bool {
    &&& r is Ok ==> path_positioned(new_p, path_start(old_p), text)
    &&& r == Ok::<bool, Error>(true) ==> {
        &&& path_ok(new_p, n, text)
        &&& path_start(new_p) == path_start(old_p)
        &&& (path_check(new_p, n) == 0 || path_len(new_p) == path_len(old_p))
    }
    &&& r matches Err(e) ==> e.code == 200 || e.code == 202
}

impl<'a> Path<'a> {
    /// used to back off a failed repeated match to see if the path can be saved. There are 3 steps in
    /// backing off. The actual implementation depends on whether it is using lazy or greedy match algorithm.
    ///
    /// - back off child path (for **AND** and **OR**): if a child path can be backed off try that
    /// - change subpaths (for **AND** and **OR**) if a path becomes too short (or too long, for lazy) pop that
    ///   subpath off and check. For **AND** this means backing off on the previous subpath, for **OR** it means
    ///   going to the next option
    /// - back off the last step, check if that still meets the requirements. For greedy evaluation this means popping
    ///   off a step from the Path, for lazy eval it means adding a new step
    ///
    /// The **Empty** path cannot back off.
    fn back_off(&mut self, Ghost(n): Ghost<Node>, text: &Text, gas: &mut u64) -> (r: Result<bool, Error>)
        requires
            node_resolved(n),
            *old(self) is Empty || path_ok(*old(self), n, text@),
        ensures
            back_off_result(r, *old(self), *final(self), n, text@),
            r matches Ok(b) ==> back_off_moves(b, *old(self), *final(self)),
            (*old(self) is Chars || *old(self) is Special || *old(self) is Range) && *old(gas) > 0
                ==> r is Ok && leaf_path_back_off(*old(self), *final(self), r->Ok_0, text@),
            back_off_agrees(r, path_view(*final(self)), path_back_off_model(path_view(*old(self)), n, text@, *old(gas) as nat)),
            *final(gas) as nat == path_back_off_model(path_view(*old(self)), n, text@, *old(gas) as nat).2,
            r is Ok && !(*old(self) is Empty) ==> *final(gas) < *old(gas),
            *final(gas) <= *old(gas),
        decreases *old(gas),
    {
        if self.is_none() {
            return Ok(false);
        }
        tick(gas)?;
        proof {
            lemma_path_facts(*self, n, text@);
            lemma_target_resolved(n);
            lemma_path_view(*self);
        }
        let limits = self.limits();
        match self {
            Path::Chars(steps) => {
                let ghost before = steps@;
                let b = Path::chars_back_off(steps, Ghost(node_target(n)->Chars_0), limits, text);
                proof {
                    assert(steps@.take(before.len() - 1) =~= before.take(before.len() - 1));
                    assert(b ==> steps@.len() != before.len());
                    let len = before.len() as int;
                    let sp = leaf_spans_c(before);
                    if !limits.spec_lazy() {
                        assert(leaf_spans_c(steps@) =~= sp.drop_last());
                    } else if b {
                        assert(chars_ms(steps@)[len] == steps@[len].matched);
                        assert(chars_ms(steps@)[len - 1] == steps@[len - 1].matched);
                        assert(steps@[len - 1] == steps@.take(len)[len - 1]);
                        assert(leaf_spans_c(steps@) =~= sp.push((sp.last().1, steps@[len].matched.char_end as int)));
                    } else {
                        assert(leaf_spans_c(steps@) =~= sp);
                    }
                }
                Ok(b)
            },
            Path::Special(steps) => {
                let ghost before = steps@;
                let b = Path::special_back_off(steps, Ghost(node_target(n)->Special_0), limits, text);
                proof {
                    assert(steps@.take(before.len() - 1) =~= before.take(before.len() - 1));
                    assert(b ==> steps@.len() != before.len());
                    let len = before.len() as int;
                    let sp = leaf_spans_s(before);
                    if !limits.spec_lazy() {
                        assert(leaf_spans_s(steps@) =~= sp.drop_last());
                    } else if b {
                        assert(special_ms(steps@)[len] == steps@[len].matched);
                        assert(special_ms(steps@)[len - 1] == steps@[len - 1].matched);
                        assert(steps@[len - 1] == steps@.take(len)[len - 1]);
                        assert(leaf_spans_s(steps@) =~= sp.push((sp.last().1, steps@[len].matched.char_end as int)));
                    } else {
                        assert(leaf_spans_s(steps@) =~= sp);
                    }
                }
                Ok(b)
            },
            Path::Range(steps) => {
                let ghost before = steps@;
                let b = Path::range_back_off(steps, Ghost(node_target(n)->Range_0), limits, text);
                proof {
                    assert(steps@.take(before.len() - 1) =~= before.take(before.len() - 1));
                    assert(b ==> steps@.len() != before.len());
                    let len = before.len() as int;
                    let sp = leaf_spans_r(before);
                    if !limits.spec_lazy() {
                        assert(leaf_spans_r(steps@) =~= sp.drop_last());
                    } else if b {
                        assert(range_ms(steps@)[len] == steps@[len].matched);
                        assert(range_ms(steps@)[len - 1] == steps@[len - 1].matched);
                        assert(steps@[len - 1] == steps@.take(len)[len - 1]);
                        assert(leaf_spans_r(steps@) =~= sp.push((sp.last().1, steps@[len].matched.char_end as int)));
                    } else {
                        assert(leaf_spans_r(steps@) =~= sp);
                    }
                }
                Ok(b)
            },
            Path::And(steps) => Path::and_back_off(steps, Ghost(node_target(n)->And_0), limits, text, gas),
            Path::Or(steps) => Path::or_back_off(steps, Ghost(node_target(n)->Or_0), limits, text, gas),
            Path::Empty => Ok(false),
        }
    }

    /// **back_off** for a Chars path: a lazy path takes one more step if it may, a greedy one
    /// drops its last step.
    fn chars_back_off(steps: &mut Vec<CharsStep<'a>>, Ghost(c): Ghost<CharsNode>, limits: Limits, text: &Text) -> (r: bool)
        requires
            chars_path_ok(old(steps)@, c, text@),
            limits == c.limits,
        ensures
            ms_positioned(chars_ms(final(steps)@), chars_ms(old(steps)@)[0].char_start as int, text@),
            r ==> chars_path_ok(final(steps)@, c, text@) && chars_ms(final(steps)@)[0] == chars_ms(old(steps)@)[0]
                && c.limits.spec_check(final(steps)@.len() as int) == 0,
            !limits.spec_lazy() ==> final(steps)@ == old(steps)@.drop_last()
                && r == (limits.spec_check(old(steps)@.len() - 1) == 0),
            limits.spec_lazy() ==> (r <==> (old(steps)@.len() >= limits.min && old(steps)@.len() <= limits.max
                && chars_step_possible(c, old(steps)@.last().matched.char_end as int, text@))),
            limits.spec_lazy() && r ==> final(steps)@.len() == old(steps)@.len() + 1
                && final(steps)@.take(old(steps)@.len() as int) == old(steps)@,
            limits.spec_lazy() && !r ==> final(steps)@ == old(steps)@,
    {
        let ghost before = steps@;
        proof {
            lemma_chain_take(chars_ms(before), before.len() as int, text@);
            assert(chars_ms(before).take(before.len() as int) =~= chars_ms(before));
        }
        let len = steps.len();
        if limits.lazy() {
            if len >= limits.min && len <= limits.max {
                proof {
                    assert(chars_ms(before)[len - 1] == before[len - 1].matched);
                }
                if let Some(next_step) = steps[len - 1].step(text) {
                    steps.push(next_step);
                    proof {
                        assert(chars_ms(steps@) =~= chars_ms(before).push(next_step.matched));
                        lemma_chain_push(chars_ms(before), next_step.matched, text@);
                        assert(steps@[len as int] == next_step);
                        assert forall|i: int| 0 <= i < len implies steps@[i] == before[i] by {}
                    }
                    return true;
                }
            }
            false
        } else {
            let _ = steps.pop();
            proof {
                assert(chars_ms(steps@) =~= chars_ms(before).take(len - 1));
                lemma_chain_take(chars_ms(before), len - 1, text@);
                assert forall|i: int| 0 <= i < steps.len() implies steps@[i] == before[i] by {}
            }
            limits.check(steps.len()) == 0
        }
    }

    /// **back_off** for a Special path, as for a Chars path.
    fn special_back_off(steps: &mut Vec<SpecialStep<'a>>, Ghost(c): Ghost<SpecialNode>, limits: Limits, text: &Text) -> (r: bool)
        requires
            special_path_ok(old(steps)@, c, text@),
            limits == c.limits,
        ensures
            ms_positioned(special_ms(final(steps)@), special_ms(old(steps)@)[0].char_start as int, text@),
            r ==> special_path_ok(final(steps)@, c, text@) && special_ms(final(steps)@)[0] == special_ms(old(steps)@)[0]
                && c.limits.spec_check(final(steps)@.len() as int) == 0,
            !limits.spec_lazy() ==> final(steps)@ == old(steps)@.drop_last()
                && r == (limits.spec_check(old(steps)@.len() - 1) == 0),
            limits.spec_lazy() ==> (r <==> (old(steps)@.len() >= limits.min && old(steps)@.len() <= limits.max
                && special_step_possible(c, old(steps)@.last().matched.char_end as int, text@))),
            limits.spec_lazy() && r ==> final(steps)@.len() == old(steps)@.len() + 1
                && final(steps)@.take(old(steps)@.len() as int) == old(steps)@,
            limits.spec_lazy() && !r ==> final(steps)@ == old(steps)@,
    {
        let ghost before = steps@;
        proof {
            lemma_chain_take(special_ms(before), before.len() as int, text@);
            assert(special_ms(before).take(before.len() as int) =~= special_ms(before));
        }
        let len = steps.len();
        if limits.lazy() {
            if len >= limits.min && len <= limits.max {
                proof {
                    assert(special_ms(before)[len - 1] == before[len - 1].matched);
                }
                if let Some(next_step) = steps[len - 1].step(text) {
                    steps.push(next_step);
                    proof {
                        assert(special_ms(steps@) =~= special_ms(before).push(next_step.matched));
                        lemma_chain_push(special_ms(before), next_step.matched, text@);
                        assert(steps@[len as int] == next_step);
                        assert forall|i: int| 0 <= i < len implies steps@[i] == before[i] by {}
                    }
                    return true;
                }
            }
            false
        } else {
            let _ = steps.pop();
            proof {
                assert(special_ms(steps@) =~= special_ms(before).take(len - 1));
                lemma_chain_take(special_ms(before), len - 1, text@);
                assert forall|i: int| 0 <= i < steps.len() implies steps@[i] == before[i] by {}
            }
            limits.check(steps.len()) == 0
        }
    }

    /// **back_off** for a Range path, as for a Chars path.
    fn range_back_off(steps: &mut Vec<RangeStep<'a>>, Ghost(c): Ghost<RangeNode>, limits: Limits, text: &Text) -> (r: bool)
        requires
            range_path_ok(old(steps)@, c, text@),
            limits == c.limits,
        ensures
            ms_positioned(range_ms(final(steps)@), range_ms(old(steps)@)[0].char_start as int, text@),
            r ==> range_path_ok(final(steps)@, c, text@) && range_ms(final(steps)@)[0] == range_ms(old(steps)@)[0]
                && c.limits.spec_check(final(steps)@.len() as int) == 0,
            !limits.spec_lazy() ==> final(steps)@ == old(steps)@.drop_last()
                && r == (limits.spec_check(old(steps)@.len() - 1) == 0),
            limits.spec_lazy() ==> (r <==> (old(steps)@.len() >= limits.min && old(steps)@.len() <= limits.max
                && range_step_possible(c, old(steps)@.last().matched.char_end as int, text@))),
            limits.spec_lazy() && r ==> final(steps)@.len() == old(steps)@.len() + 1
                && final(steps)@.take(old(steps)@.len() as int) == old(steps)@,
            limits.spec_lazy() && !r ==> final(steps)@ == old(steps)@,
    {
        let ghost before = steps@;
        proof {
            lemma_chain_take(range_ms(before), before.len() as int, text@);
            assert(range_ms(before).take(before.len() as int) =~= range_ms(before));
        }
        let len = steps.len();
        if limits.lazy() {
            if len >= limits.min && len <= limits.max {
                proof {
                    assert(range_ms(before)[len - 1] == before[len - 1].matched);
                }
                if let Some(next_step) = steps[len - 1].step(text) {
                    steps.push(next_step);
                    proof {
                        assert(range_ms(steps@) =~= range_ms(before).push(next_step.matched));
                        lemma_chain_push(range_ms(before), next_step.matched, text@);
                        assert(steps@[len as int] == next_step);
                        assert forall|i: int| 0 <= i < len implies steps@[i] == before[i] by {}
                    }
                    return true;
                }
            }
            false
        } else {
            let _ = steps.pop();
            proof {
                assert(range_ms(steps@) =~= range_ms(before).take(len - 1));
                lemma_chain_take(range_ms(before), len - 1, text@);
                assert forall|i: int| 0 <= i < steps.len() implies steps@[i] == before[i] by {}
            }
            limits.check(steps.len()) == 0
        }
    }

    /// **back_off** for an AND path: back off its last step; failing that, a lazy path takes one
    /// more step if it may, and a greedy one drops its last step.
    #[verifier::rlimit(100)]
    fn and_back_off(steps: &mut Vec<AndStep<'a>>, Ghost(a): Ghost<AndNode>, limits: Limits, text: &Text, gas: &mut u64) -> (r: Result<bool, Error>)
        requires
            and_path_ok(old(steps)@, a, text@),
            node_resolved(Node::And(a)),
            limits == a.limits,
        ensures
            r is Ok ==> ms_positioned(and_ms(final(steps)@), and_ms(old(steps)@)[0].char_start as int, text@),
            r == Ok::<bool, Error>(true) ==> and_path_ok(final(steps)@, a, text@)
                && and_ms(final(steps)@)[0].char_start == and_ms(old(steps)@)[0].char_start
                && (a.limits.spec_check(final(steps)@.len() as int) == 0 || final(steps)@.len() == old(steps)@.len()),
            r == Ok::<bool, Error>(false) ==> (limits.spec_lazy() ==> final(steps)@ == old(steps)@)
                && (!limits.spec_lazy() ==> final(steps)@ == old(steps)@.drop_last()),
            r is Ok ==> final(steps)@.take(old(steps)@.len() - 1) == old(steps)@.take(old(steps)@.len() - 1),
            r == Ok::<bool, Error>(true) ==> final(steps)@ != old(steps)@
                && (final(steps)@.len() == old(steps)@.len() || (!limits.spec_lazy() && final(steps)@.len() == old(steps)@.len() - 1)
                    || (limits.spec_lazy() && final(steps)@.len() == old(steps)@.len() + 1)),
            back_off_agrees(r, and_views(final(steps)@), and_path_back_off_model(and_views(old(steps)@), a, text@, *old(gas) as nat)),
            *final(gas) as nat == and_path_back_off_model(and_views(old(steps)@), a, text@, *old(gas) as nat).2,
            r matches Err(e) ==> e.code == 200 || e.code == 202,
            *final(gas) <= *old(gas),
            r is Ok ==> *final(gas) < *old(gas),
        decreases *old(gas),
    {
        tick(gas)?;
        let ghost before = steps@;
        proof {
            lemma_and_path_pop(before, a, text@);
            lemma_chain_take(and_ms(before), before.len() as int, text@);
            assert(and_ms(before).take(before.len() as int) =~= and_ms(before));
        }
        let len0 = steps.len();
        let mut last_step = steps.pop().unwrap();
        let ghost old_last = last_step;
        proof {
            assert(old_last == before.last());
            lemma_and_views(before);
            lemma_views_drop_last();
            assert(and_views(before).last() == and_view(old_last));
        }
        proof {
            assert(*old_last.node == a);
        }
        let backed = last_step.back_off(text, gas)?;
        proof {
            lemma_and_views_push(before.drop_last(), last_step);
            assert(before.drop_last() == steps@);
        }
        if limits.lazy() {
            steps.push(last_step);
            proof {
                assert(steps@ =~= before);
            }
            if backed {
                return Ok(true);
            }
            if len0 >= limits.min && len0 <= limits.max {
                proof {
                    assert(steps@[len0 - 1] == last_step);
                }
                if let Some(next_step) = steps[len0 - 1].step(text, gas)? {
                    proof {
                        lemma_and_path_push(before, next_step, a, text@);
                        assert(and_ms(before.push(next_step)) =~= and_ms(before).push(next_step.matched));
                        lemma_and_views_push(steps@, next_step);
                    }
                    steps.push(next_step);
                    proof {
                        assert(steps@.take(len0 - 1) =~= before.take(len0 - 1));
                        assert(steps@.len() != before.len());
                    }
                    return Ok(true);
                }
            }
            Ok(false)
        } else if backed {
            proof {
                if len0 == 1 {
                    assert(old_last.child_paths.len() == 0);
                }
                lemma_and_path_replace(before, last_step, a, text@);
            }
            steps.push(last_step);
            proof {
                assert(steps@ =~= before.drop_last().push(last_step));
                assert(and_ms(steps@)[0] == steps@[0].matched);
                assert(and_ms(before)[0] == before[0].matched);
                assert(steps@.take(len0 - 1) =~= before.take(len0 - 1));
                assert(steps@[len0 - 1] != before[len0 - 1]);
            }
            Ok(true)
        } else {
            proof {
                assert(steps@ =~= before.drop_last());
                if len0 > 1 {
                    assert(and_ms(steps@)[0] == steps@[0].matched);
                    assert(steps@[0] == before[0]);
                }
                assert(steps@.take(len0 - 1) =~= before.take(len0 - 1));
                assert(steps@.len() != before.len());
            }
            Ok(limits.check(steps.len()) == 0)
        }
    }

    /// **back_off** for an OR path: back off its last step; failing that, a lazy path takes one
    /// more step if it may, and a greedy one drops its last step.
    #[verifier::rlimit(100)]
    fn or_back_off(steps: &mut Vec<OrStep<'a>>, Ghost(o): Ghost<OrNode>, limits: Limits, text: &Text, gas: &mut u64) -> (r: Result<bool, Error>)
        requires
            or_path_ok(old(steps)@, o, text@),
            node_resolved(Node::Or(o)),
            limits == o.limits,
        ensures
            r is Ok ==> ms_positioned(or_ms(final(steps)@), or_ms(old(steps)@)[0].char_start as int, text@),
            r == Ok::<bool, Error>(true) ==> or_path_ok(final(steps)@, o, text@)
                && or_ms(final(steps)@)[0].char_start == or_ms(old(steps)@)[0].char_start
                && (o.limits.spec_check(final(steps)@.len() as int) == 0 || final(steps)@.len() == old(steps)@.len()),
            !limits.spec_lazy() && r == Ok::<bool, Error>(false) ==> final(steps)@ == old(steps)@.drop_last(),
            limits.spec_lazy() && r == Ok::<bool, Error>(false) ==> final(steps)@.len() == old(steps)@.len(),
            r is Ok ==> final(steps)@.take(old(steps)@.len() - 1) == old(steps)@.take(old(steps)@.len() - 1),
            r == Ok::<bool, Error>(true) ==> final(steps)@ != old(steps)@
                && (final(steps)@.len() == old(steps)@.len() || (!limits.spec_lazy() && final(steps)@.len() == old(steps)@.len() - 1)
                    || (limits.spec_lazy() && final(steps)@.len() == old(steps)@.len() + 1)),
            back_off_agrees(r, or_views(final(steps)@), or_path_back_off_model(or_views(old(steps)@), o, text@, *old(gas) as nat)),
            *final(gas) as nat == or_path_back_off_model(or_views(old(steps)@), o, text@, *old(gas) as nat).2,
            r matches Err(e) ==> e.code == 200 || e.code == 202,
            *final(gas) <= *old(gas),
            r is Ok ==> *final(gas) < *old(gas),
        decreases *old(gas),
    {
        tick(gas)?;
        let ghost before = steps@;
        proof {
            lemma_or_path_pop(before, o, text@);
            lemma_chain_take(or_ms(before), before.len() as int, text@);
            assert(or_ms(before).take(before.len() as int) =~= or_ms(before));
        }
        let len0 = steps.len();
        let mut last_step = steps.pop().unwrap();
        let ghost old_last = last_step;
        proof {
            assert(old_last == before.last());
            lemma_or_views(before);
            lemma_views_drop_last();
            assert(or_views(before).last() == or_view(old_last));
            lemma_or_steps_index(before, o, text@);
            assert(*old_last.node == o);
        }
        let backed = last_step.back_off(text, gas)?;
        proof {
            lemma_or_views_push(before.drop_last(), last_step);
            assert(before.drop_last() == steps@);
            if len0 == 1 {
                assert(*old_last.child_path is Empty);
                assert(last_step == old_last);
            }
            lemma_or_path_replace(before, last_step, o, text@);
        }
        steps.push(last_step);
        let ghost mid = steps@;
        proof {
            assert(mid =~= before.drop_last().push(last_step));
            lemma_or_path_pop(mid, o, text@);
            assert(or_ms(mid)[0] == mid[0].matched);
            assert(or_ms(before)[0] == before[0].matched);
            if len0 > 1 {
                assert(mid[0] == before[0]);
            }
            lemma_chain_take(or_ms(mid), mid.len() as int, text@);
            assert(or_ms(mid).take(mid.len() as int) =~= or_ms(mid));
        }
        if backed {
            return Ok(true);
        }
        if limits.lazy() {
            if len0 >= limits.min && len0 <= limits.max {
                proof {
                    assert(steps@[len0 - 1] == last_step);
                }
                if let Some(next_step) = steps[len0 - 1].step(text, gas)? {
                    proof {
                        lemma_or_path_push(mid, next_step, o, text@);
                        assert(or_ms(mid.push(next_step)) =~= or_ms(mid).push(next_step.matched));
                        lemma_or_views_push(steps@, next_step);
                    }
                    steps.push(next_step);
                    return Ok(true);
                }
            }
            Ok(false)
        } else {
            let _ = steps.pop();
            proof {
                assert(steps@ =~= before.drop_last());
                if len0 > 1 {
                    assert(or_ms(steps@)[0] == steps@[0].matched);
                    assert(steps@[0] == before[0]);
                }
            }
            Ok(limits.check(steps.len()) == 0)
        }
    }
}


/// A walk lies in order in the text: its byte range, as **Path::range** gives it, runs from the
/// first step's start to the last step's end, and its length (**Path::match_len**) is the number
/// of bytes of the UTF-8 encoding of the characters it matches (**Path::matched_string**).
pub proof fn law_walk_range(p: Path, n: Node, text: Seq<char>)
    requires
        path_ok(p, n, text),
    ensures
        path_ms(p)[0].start <= path_ms(p).last().end,
        path_ms(p).last().end - path_ms(p)[0].start
            == byte_pos(text.subrange(path_start(p), path_end(p)), path_end(p) - path_start(p)),
{
    lemma_path_facts(p, n, text);
    let ms = path_ms(p);
    assert(matched_ok(ms[0], text));
    assert(matched_ok(ms[ms.len() - 1], text));
    let b = path_start(p);
    let e = path_end(p);
    lemma_byte_pos_mono(text, b, e);
    crate::text::lemma_byte_pos_skip_upto(text, b, e);
    assert(text.skip(b).take(e - b) =~= text.subrange(b, e).take(e - b));
    crate::text::lemma_byte_pos_prefix(text.skip(b), text.subrange(b, e), e - b);
}

/// A match found by **walk_tree**: a walk of the tree within its limits, starting at or after
/// **start** (at **start** exactly for a tree anchored to the start of the text).
pub open spec fn found_match(p: Path, tree: Node, start: int, text: Seq<char>) -> bool {
    &&& path_ok(p, tree, text)
    &&& path_check(p, tree) == 0
    &&& start <= path_start(p) <= path_end(p) <= text.len()
    &&& (tree is And && tree->And_0.anchor) ==> path_start(p) == start
}

/// Searches **text** with the tree, trying each position from **start** on in turn (only the
/// start of the text, if the tree is anchored there). Returns the walk at the first position
/// where the tree matches within its limits, or None.
pub fn walk_tree<'a>(tree: &'a Node, text: &Text, start: usize) -> (r: Result<Option<Path<'a>>, Error>)
    requires
        node_resolved(*tree),
        start <= text@.len(),
    ensures
        r matches Ok(Some(p)) ==> found_match(p, *tree, start as int, text@),
        r matches Ok(Some(p)) ==> (tree is And ==> forall|i: int| 0 < i < path_len(p)
            ==> (#[trigger] p->And_0@[i]).child_paths.len() == tree->And_0.nodes.len()),
        r matches Ok(Some(p)) ==> (tree is And && tree->And_0.anchor) ==> start == 0,
        (tree is And && tree->And_0.anchor && start > 0) ==> r matches Ok(None),
        sure_walk(*tree) && !(tree is And && tree->And_0.anchor && start > 0)
            ==> r is Err || (r matches Ok(Some(p)) && path_start(p) == start),
        search_agrees(r, walk_tree_model(*tree, text@, start as int)),
        r matches Err(e) ==> e.code == 200 || e.code == 202,
{
    let anchored = match tree {
        Node::And(a) => a.anchor,
        _ => false,
    };
    if anchored && start > 0 {
        return Ok(None);
    }
    let mut gas = SEARCH_BUDGET;
    let len = text.len();
    let mut pos = start;
    loop
        invariant
            start <= pos <= len,
            len == text@.len(),
            node_resolved(*tree),
            anchored == (tree is And && tree->And_0.anchor),
            anchored ==> pos == start && start == 0,
            sure_walk(*tree) ==> pos == start,
            search_from(*tree, text@, pos as int, anchored, gas as nat) == walk_tree_model(*tree, text@, start as int),
        decreases len - pos,
    {
        let m = Matched::span(text, pos, pos);
        let path = match tree {
            Node::And(a) => AndStep::walk_with(a, m, text, &mut gas)?,
            _ => tree.walk_with(m, text, &mut gas)?,
        };
        proof {
            lemma_path_facts(path, *tree, text@);
            lemma_path_view(path);
        }
        if path.limits().check(path.len()) == 0 {
            return Ok(Some(path));
        }
        if anchored || pos == len {
            return Ok(None);
        }
        pos = pos + 1;
    }
}


/// The children walks are walks of their nodes.
proof fn lemma_children_index(ps: Seq<Path>, ns: Seq<Node>, start: int, text: Seq<char>)
    requires
        children_ok(ps, ns, start, text),
    ensures
        ps.len() <= ns.len(),
        forall|k: int| 0 <= k < ps.len() ==> path_ok(#[trigger] ps[k], ns[k], text),
    decreases ps.len(),
{
    if ps.len() > 0 {
        lemma_children_index(ps.drop_first(), ns.drop_first(), path_end(ps[0]), text);
        assert forall|k: int| 0 <= k < ps.len() implies path_ok(#[trigger] ps[k], ns[k], text) by {
            if k > 0 {
                assert(ps[k] == ps.drop_first()[k - 1]);
                assert(ns[k] == ns.drop_first()[k - 1]);
            }
        }
    }
}

/// The reports after adding the report **sub** of a step of an AND or OR node to **acc**: a
/// report with no name is replaced by its subreports.
pub open spec fn add_view(acc: Seq<ReportView>, sub: ReportView) -> Seq<ReportView> {
    if sub.name is None {
        acc + sub.subs
    } else {
        acc.push(sub)
    }
}

/// The reports after adding the reports **items** of steps of an AND or OR node, in order.
pub open spec fn add_views(items: Seq<ReportView>) -> Seq<ReportView>
    decreases items.len(),
{
    if items.len() == 0 {
        Seq::empty()
    } else {
        add_view(add_views(items.drop_last()), items.last())
    }
}

/// The reports after adding the reports **items** of steps of a leaf node, in order: only the
/// named ones are kept.
pub open spec fn add_named_views(items: Seq<ReportView>) -> Seq<ReportView>
    decreases items.len(),
{
    if items.len() == 0 {
        Seq::empty()
    } else {
        let acc = add_named_views(items.drop_last());
        if items.last().name is Some {
            acc.push(items.last())
        } else {
            acc
        }
    }
}

/// The subreports of the reports **reps**, taken from the last report to the first.
pub open spec fn rev_subs(reps: Seq<ReportView>) -> Seq<ReportView>
    decreases reps.len(),
{
    if reps.len() == 0 {
        Seq::empty()
    } else {
        reps.last().subs + rev_subs(reps.drop_last())
    }
}

/// One report, named **name**, from the start of **first** to the end of **last**, holding the
/// subreports of the reports **reps** (from the last report to the first).
pub open spec fn collapse_view(reps: Seq<ReportView>, first: Matched, last: Matched, name: Option<Seq<char>>) -> Seq<ReportView> {
    seq![ReportView {
        matched: Matched { start: first.start, end: last.end, char_start: first.char_start, char_end: last.char_end },
        name,
        subs: rev_subs(reps),
    }]
}

/// The reports of a path whose step reports are **items**, **first** the first step, **last**
/// the last one: the reports of the steps but the zero step (unless it is the only one), kept
/// as **add** says, and gathered in one report when the node's name refers to all its
/// repetitions.
pub open spec fn finish_views(
    items: Seq<ReportView>,
    leaf: bool,
    first: Matched,
    last: Matched,
    name: Option<Seq<char>>,
    outside: bool,
) -> Seq<ReportView> {
    let from: int = if items.len() > 1 { 1 } else { 0 };
    let reps = if leaf { add_named_views(items.skip(from)) } else { add_views(items.skip(from)) };
    if outside {
        collapse_view(reps, first, last, name)
    } else {
        reps
    }
}

/// The report of a step of a leaf node: its match and its node's name.
pub open spec fn leaf_view(matched: Matched, named: Option<Vec<char>>) -> ReportView {
    ReportView { matched, name: name_view(named), subs: Seq::empty() }
}

/// The reports that **gather_reports** gives for the path **p**.
pub open spec fn gather_view(p: Path) -> Seq<ReportView>
    decreases p, 2nat,
{
    match p {
        Path::Chars(s) => finish_views(
            Seq::new(s@.len(), |i: int| leaf_view(s@[i].matched, s@[i].node.named)),
            true,
            s@[0].matched,
            s@.last().matched,
            name_view(s@[0].node.named),
            s@[0].node.name_outside,
        ),
        Path::Special(s) => finish_views(
            Seq::new(s@.len(), |i: int| leaf_view(s@[i].matched, s@[i].node.named)),
            true,
            s@[0].matched,
            s@.last().matched,
            name_view(s@[0].node.named),
            s@[0].node.name_outside,
        ),
        Path::Range(s) => finish_views(
            Seq::new(s@.len(), |i: int| leaf_view(s@[i].matched, s@[i].node.named)),
            true,
            s@[0].matched,
            s@.last().matched,
            name_view(s@[0].node.named),
            s@[0].node.name_outside,
        ),
        Path::And(s) => finish_views(
            and_step_views(s@),
            false,
            s@[0].matched,
            s@.last().matched,
            name_view(s@[0].node.named),
            s@[0].node.name_outside,
        ),
        Path::Or(s) => finish_views(
            or_step_views(s@),
            false,
            s@[0].matched,
            s@.last().matched,
            name_view(s@[0].node.named),
            s@[0].node.name_outside,
        ),
        Path::Empty => Seq::empty(),
    }
}

/// The reports of the steps of an AND path.
pub open spec fn and_step_views(s: Seq<AndStep>) -> Seq<ReportView>
    decreases s, 1nat,
{
    if s.len() == 0 {
        Seq::empty()
    } else {
        seq![and_step_view(s[0])] + and_step_views(s.drop_first())
    }
}

/// The report of a step of an AND path: its match, its node's name, and the reports of its
/// child paths, one after the other.
pub open spec fn and_step_view(st: AndStep) -> ReportView
    decreases st, 1nat,
{
    ReportView { matched: st.matched, name: name_view(st.node.named), subs: children_views(st.child_paths@) }
}

/// The reports of the paths **ps**, one after the other.
pub open spec fn children_views(ps: Seq<Path>) -> Seq<ReportView>
    decreases ps, 1nat,
{
    if ps.len() == 0 {
        Seq::empty()
    } else {
        gather_view(ps[0]) + children_views(ps.drop_first())
    }
}

/// The reports of the steps of an OR path.
pub open spec fn or_step_views(s: Seq<OrStep>) -> Seq<ReportView>
    decreases s, 1nat,
{
    if s.len() == 0 {
        Seq::empty()
    } else {
        seq![or_step_view(s[0])] + or_step_views(s.drop_first())
    }
}

/// The report of a step of an OR path: its match, its node's name, and the reports of its child
/// path (none if the step ran out of alternatives).
pub open spec fn or_step_view(st: OrStep) -> ReportView
    decreases st, 1nat,
{
    ReportView {
        matched: st.matched,
        name: name_view(st.node.named),
        subs: if st.which < st.node.nodes.len() { gather_view(*st.child_path) } else { Seq::empty() },
    }
}

/// The views of a list of reports without its last one.
proof fn lemma_report_views_drop_last(a: Seq<Report>)
    requires
        a.len() > 0,
    ensures
        report_views(a.drop_last()) == report_views(a).drop_last(),
{
    lemma_report_views(a);
    lemma_report_views(a.drop_last());
    assert(report_views(a.drop_last()) =~= report_views(a).drop_last());
}

/// The reports of the steps of an AND path, one by one.
proof fn lemma_and_step_views(s: Seq<AndStep>)
    ensures
        and_step_views(s).len() == s.len(),
        forall|i: int| 0 <= i < s.len() ==> #[trigger] and_step_views(s)[i] == and_step_view(s[i]),
    decreases s.len(),
{
    if s.len() > 0 {
        lemma_and_step_views(s.drop_first());
        assert forall|i: int| 0 <= i < s.len() implies #[trigger] and_step_views(s)[i] == and_step_view(s[i]) by {
            if i > 0 {
                assert(and_step_views(s)[i] == and_step_views(s.drop_first())[i - 1]);
                assert(s.drop_first()[i - 1] == s[i]);
            }
        }
    }
}

/// The reports of the steps of an OR path, one by one.
proof fn lemma_or_step_views(s: Seq<OrStep>)
    ensures
        or_step_views(s).len() == s.len(),
        forall|i: int| 0 <= i < s.len() ==> #[trigger] or_step_views(s)[i] == or_step_view(s[i]),
    decreases s.len(),
{
    if s.len() > 0 {
        lemma_or_step_views(s.drop_first());
        assert forall|i: int| 0 <= i < s.len() implies #[trigger] or_step_views(s)[i] == or_step_view(s[i]) by {
            if i > 0 {
                assert(or_step_views(s)[i] == or_step_views(s.drop_first())[i - 1]);
                assert(s.drop_first()[i - 1] == s[i]);
            }
        }
    }
}

/// The reports of the paths **ps** and then of **p**.
proof fn lemma_children_views_push(ps: Seq<Path>, p: Path)
    ensures
        children_views(ps.push(p)) == children_views(ps) + gather_view(p),
    decreases ps.len(),
{
    if ps.len() == 0 {
        let q = ps.push(p);
        assert(q.drop_first() =~= Seq::<Path>::empty());
        assert(q[0] == p);
        assert(children_views(q.drop_first()) == Seq::<ReportView>::empty());
        assert(children_views(q) == gather_view(q[0]) + children_views(q.drop_first()));
        assert(children_views(ps) == Seq::<ReportView>::empty());
        assert(gather_view(p) + Seq::<ReportView>::empty() =~= gather_view(p));
        assert(Seq::<ReportView>::empty() + gather_view(p) =~= gather_view(p));
    } else {
        assert(ps.push(p).drop_first() =~= ps.drop_first().push(p));
        lemma_children_views_push(ps.drop_first(), p);
        assert(ps.push(p)[0] == ps[0]);
        assert(children_views(ps.push(p)) =~= children_views(ps) + gather_view(p));
    }
}

/// Folding in one more step report.
proof fn lemma_add_views_step(items: Seq<ReportView>, from: int, i: int)
    requires
        0 <= from <= i < items.len(),
    ensures
        add_views(items.subrange(from, i + 1)) == add_view(add_views(items.subrange(from, i)), items[i]),
        add_named_views(items.subrange(from, i + 1)) == (if items[i].name is Some {
            add_named_views(items.subrange(from, i)).push(items[i])
        } else {
            add_named_views(items.subrange(from, i))
        }),
{
    assert(items.subrange(from, i + 1).drop_last() =~= items.subrange(from, i));
}

/// The name of the node that a path walks, and whether it refers to all its repetitions.
pub open spec fn path_naming(p: Path) -> (Option<Seq<char>>, bool) {
    match p {
        Path::Chars(s) => (name_view(s@[0].node.named), s@[0].node.name_outside),
        Path::Special(s) => (name_view(s@[0].node.named), s@[0].node.name_outside),
        Path::Range(s) => (name_view(s@[0].node.named), s@[0].node.name_outside),
        Path::And(s) => (name_view(s@[0].node.named), s@[0].node.name_outside),
        Path::Or(s) => (name_view(s@[0].node.named), s@[0].node.name_outside),
        Path::Empty => (None, false),
    }
}

/// A name given after the repetition count names the repetitions together: a path of a node
/// whose name refers to all its repetitions gives one report, with the node's name, from the
/// start of the path to its end.
pub proof fn law_name_after_count(p: Path)
    requires
        path_len(p) >= 1,
        path_naming(p).1,
    ensures
        gather_view(p).len() == 1,
        gather_view(p)[0].name == path_naming(p).0,
        gather_view(p)[0].matched == (Matched {
            start: path_ms(p)[0].start,
            end: path_ms(p).last().end,
            char_start: path_ms(p)[0].char_start,
            char_end: path_ms(p).last().char_end,
        }),
{
    let last = path_len(p) - 1;
    match p {
        Path::Chars(s) => {
            assert(path_ms(p)[0] == s@[0].matched && path_ms(p)[last] == s@.last().matched);
        },
        Path::Special(s) => {
            assert(path_ms(p)[0] == s@[0].matched && path_ms(p)[last] == s@.last().matched);
        },
        Path::Range(s) => {
            assert(path_ms(p)[0] == s@[0].matched && path_ms(p)[last] == s@.last().matched);
        },
        Path::And(s) => {
            assert(path_ms(p)[0] == s@[0].matched && path_ms(p)[last] == s@.last().matched);
        },
        Path::Or(s) => {
            assert(path_ms(p)[0] == s@[0].matched && path_ms(p)[last] == s@.last().matched);
        },
        Path::Empty => {},
    }
}

/// A name given before the repetition count names each repetition: the path of a walk of a
/// leaf node (a string, special character or set) that is named, with the name on each
/// repetition, gives one report for each repetition, in order, each with the node's name and
/// the repetition's match.
pub proof fn law_name_before_count(p: Path, n: Node, text: Seq<char>)
    requires
        path_ok(p, n, text),
        p is Chars || p is Special || p is Range,
        path_len(p) > 1,
        path_naming(p).0 is Some,
        !path_naming(p).1,
    ensures
        gather_view(p).len() == path_len(p) - 1,
        forall|k: int| 0 <= k < gather_view(p).len() ==> #[trigger] gather_view(p)[k].matched == path_ms(p)[k + 1]
            && gather_view(p)[k].name == path_naming(p).0,
{
    let items: Seq<ReportView> = match p {
        Path::Chars(s) => Seq::new(s@.len(), |i: int| leaf_view(s@[i].matched, s@[i].node.named)),
        Path::Special(s) => Seq::new(s@.len(), |i: int| leaf_view(s@[i].matched, s@[i].node.named)),
        Path::Range(s) => Seq::new(s@.len(), |i: int| leaf_view(s@[i].matched, s@[i].node.named)),
        _ => Seq::empty(),
    };
    assert(items.len() == path_len(p));
    assert forall|i: int| 0 <= i < items.len() implies (#[trigger] items[i]).matched == path_ms(p)[i]
        && items[i].name == path_naming(p).0 by {
        match p {
            Path::Chars(s) => {
                assert(*s@[i].node == *s@[0].node);
            },
            Path::Special(s) => {
                assert(*s@[i].node == *s@[0].node);
            },
            Path::Range(s) => {
                assert(*s@[i].node == *s@[0].node);
            },
            _ => {},
        }
    }
    assert(gather_view(p) == add_named_views(items.skip(1)));
    assert forall|i: int| 0 <= i < items.skip(1).len() implies (#[trigger] items.skip(1)[i]).name is Some by {
        assert(items.skip(1)[i] == items[i + 1]);
    }
    lemma_all_named(items.skip(1));
}

/// When every report of **items** is named, all of them are kept.
proof fn lemma_all_named(items: Seq<ReportView>)
    requires
        forall|i: int| 0 <= i < items.len() ==> (#[trigger] items[i]).name is Some,
    ensures
        add_named_views(items) == items,
    decreases items.len(),
{
    if items.len() > 0 {
        assert forall|i: int| 0 <= i < items.drop_last().len() implies (#[trigger] items.drop_last()[i]).name is Some by {
            assert(items[i].name is Some);
        }
        lemma_all_named(items.drop_last());
        assert(items.drop_last().push(items.last()) =~= items);
    }
}

/// Gathers the reports under one report that spans from the start of **first** to the end of
/// **last**: the subreports of the reports, taken from the last report to the first.
fn collapse(reports: Vec<Report>, first: Matched, last: Matched, name: Option<Vec<char>>, Ghost(text): Ghost<Seq<char>>) -> (r: Vec<Report>)
    requires
        reports_ok(reports@, text),
        matched_ok(first, text),
        matched_ok(last, text),
        first.char_start <= last.char_end,
    ensures
        r.len() == 1,
        reports_ok(r@, text),
        r@[0].matched == (Matched { start: first.start, end: last.end, char_start: first.char_start, char_end: last.char_end }),
        r@[0].name == name,
        report_views(r@) == collapse_view(report_views(reports@), first, last, name_view(name)),
{
    let ghost orig = report_views(reports@);
    let mut reports = reports;
    let mut matched = first;
    matched.end = last.end;
    matched.char_end = last.char_end;
    let mut subreports: Vec<Report> = Vec::new();
    proof {
        lemma_reports_ok(reports@, text);
        lemma_reports_ok(subreports@, text);
    }
    proof {
        assert(report_views(subreports@) + rev_subs(report_views(reports@)) =~= rev_subs(orig));
    }
    while reports.len() > 0
        invariant
            forall|i: int| 0 <= i < reports.len() ==> #[trigger] report_ok(reports@[i], text),
            forall|i: int| 0 <= i < subreports.len() ==> #[trigger] report_ok(subreports@[i], text),
            report_views(subreports@) + rev_subs(report_views(reports@)) == rev_subs(orig),
        decreases reports.len(),
    {
        let ghost before = reports@;
        let ghost subs_views = report_views(subreports@);
        let mut rep = reports.pop().unwrap();
        proof {
            assert(rep == before[before.len() - 1]);
            assert(report_ok(rep, text));
            lemma_reports_ok(rep.subreports@, text);
            assert forall|i: int| 0 <= i < reports.len() implies #[trigger] report_ok(reports@[i], text) by {
                assert(reports@[i] == before[i]);
            }
        }
        let ghost subs_before = subreports@;
        let ghost added = rep.subreports@;
        subreports.append(&mut rep.subreports);
        proof {
            assert forall|i: int| 0 <= i < subreports.len() implies #[trigger] report_ok(subreports@[i], text) by {
                if i < subs_before.len() {
                    assert(subreports@[i] == subs_before[i]);
                } else {
                    assert(subreports@[i] == added[i - subs_before.len()]);
                }
            }
            assert(reports@ =~= before.drop_last());
            lemma_report_views_drop_last(before);
            lemma_report_views(before);
            assert(report_views(before)[before.len() - 1] == report_view(before[before.len() - 1]));
            assert(report_views(before).last().subs == report_views(added));
            assert(subreports@ =~= subs_before + added);
            lemma_report_views_add(subs_before, added);
            assert(report_views(subreports@) + rev_subs(report_views(reports@))
                =~= subs_views + (report_views(added) + rev_subs(report_views(before).drop_last())));
        }
    }
    proof {
        lemma_reports_ok(subreports@, text);
    }
    proof {
        assert(rev_subs(report_views(reports@)) =~= Seq::<ReportView>::empty());
        assert(report_views(subreports@) + Seq::<ReportView>::empty() =~= report_views(subreports@));
    }
    let top = Report { matched, name, subreports };
    let mut r: Vec<Report> = Vec::new();
    r.push(top);
    proof {
        lemma_reports_ok(r@, text);
        lemma_report_views(r@);
        assert(report_views(r@) =~= collapse_view(orig, first, last, name_view(name)));
    }
    r
}

/// Adds the reports of a step: a step report with no name is replaced by its subreports.
fn add_report(reports: &mut Vec<Report>, sub: Report, Ghost(text): Ghost<Seq<char>>)
    requires
        reports_ok(old(reports)@, text),
        report_ok(sub, text),
    ensures
        reports_ok(final(reports)@, text),
        old(reports).len() > 0 ==> final(reports).len() > 0 && final(reports)@[0] == old(reports)@[0],
        (old(reports).len() == 0 && sub.name is Some) ==> final(reports).len() == 1 && final(reports)@[0] == sub,
        report_views(final(reports)@) == add_view(report_views(old(reports)@), report_view(sub)),
{
    let mut sub = sub;
    proof {
        lemma_reports_ok(reports@, text);
        lemma_reports_ok(sub.subreports@, text);
    }
    let ghost before = reports@;
    if sub.name.is_none() {
        let ghost added = sub.subreports@;
        reports.append(&mut sub.subreports);
        proof {
            assert(reports@ =~= before + added);
            lemma_report_views_add(before, added);
            assert forall|i: int| 0 <= i < reports.len() implies #[trigger] report_ok(reports@[i], text) by {
                if i < before.len() {
                    assert(reports@[i] == before[i]);
                } else {
                    assert(reports@[i] == added[i - before.len()]);
                }
            }
            if before.len() > 0 {
                assert(reports@[0] == before[0]);
            }
        }
    } else {
        let ghost sv = report_view(sub);
        reports.push(sub);
        proof {
            lemma_report_views_push(before, sub);
            assert forall|i: int| 0 <= i < reports.len() implies #[trigger] report_ok(reports@[i], text) by {
                if i < before.len() {
                    assert(reports@[i] == before[i]);
                }
            }
            if before.len() > 0 {
                assert(reports@[0] == before[0]);
            }
        }
    }
    proof {
        lemma_reports_ok(reports@, text);
    }
}

/// Adds the report of a leaf step if it has a name.
fn add_named_report(reports: &mut Vec<Report>, sub: Report, Ghost(text): Ghost<Seq<char>>)
    requires
        reports_ok(old(reports)@, text),
        report_ok(sub, text),
    ensures
        reports_ok(final(reports)@, text),
        old(reports).len() > 0 ==> final(reports).len() > 0 && final(reports)@[0] == old(reports)@[0],
        (old(reports).len() == 0 && sub.name is Some) ==> final(reports).len() == 1 && final(reports)@[0] == sub,
        report_views(final(reports)@) == (if sub.name is Some {
            report_views(old(reports)@).push(report_view(sub))
        } else {
            report_views(old(reports)@)
        }),
{
    proof {
        lemma_reports_ok(reports@, text);
    }
    let ghost before = reports@;
    if sub.name.is_some() {
        reports.push(sub);
        proof {
            lemma_report_views_push(before, sub);
            assert forall|i: int| 0 <= i < reports.len() implies #[trigger] report_ok(reports@[i], text) by {
                if i < before.len() {
                    assert(reports@[i] == before[i]);
                }
            }
            if before.len() > 0 {
                assert(reports@[0] == before[0]);
            }
        }
    }
    proof {
        lemma_reports_ok(reports@, text);
    }
}

/// The report of a step of a leaf node: its match and its node's name, with no subreports.
fn leaf_report(matched: Matched, named: &Option<Vec<char>>, Ghost(text): Ghost<Seq<char>>) -> (r: Report)
    requires
        matched_ok(matched, text),
    ensures
        report_ok(r, text),
        r.matched == matched,
        name_view(r.name) == name_view(*named),
        r.name is Some <==> named is Some,
        report_view(r) == leaf_view(matched, *named),
{
    let r = Report { matched, name: copy_name(named), subreports: Vec::new() };
    proof {
        assert(reports_ok(r.subreports@, text));
        assert(report_views(r.subreports@) =~= Seq::<ReportView>::empty());
    }
    r
}

impl<'a> AndStep<'a> {
    /// Compiles a **Report** object from this step and its children after a successful search
    pub fn make_report(&self, Ghost(a): Ghost<AndNode>, Ghost(text): Ghost<Seq<char>>) -> (r: Report)
        requires
            and_step_ok(*self, a, text),
        ensures
            report_ok(r, text),
            r.matched == self.matched,
            name_view(r.name) == name_view(self.node.named),
            r.name is Some <==> self.node.named is Some,
            report_view(r) == and_step_view(*self),
        decreases self,
    {
        proof {
            lemma_children_index(self.child_paths@, a.nodes@, self.matched.char_start as int, text);
        }
        let mut reports: Vec<Report> = Vec::new();
        proof {
            lemma_reports_ok(reports@, text);
            assert(self.child_paths@.take(0) =~= Seq::<Path>::empty());
            assert(report_views(reports@) =~= children_views(self.child_paths@.take(0)));
        }
        let mut k: usize = 0;
        while k < self.child_paths.len()
            invariant
                k <= self.child_paths.len() <= a.nodes.len(),
                forall|j: int| 0 <= j < self.child_paths.len() ==> path_ok(#[trigger] self.child_paths@[j], a.nodes@[j], text),
                reports_ok(reports@, text),
                report_views(reports@) == children_views(self.child_paths@.take(k as int)),
            decreases self.child_paths.len() - k,
        {
            proof {
                assert(decreases_to!(*self => self.child_paths));
                assert(decreases_to!(self.child_paths => self.child_paths@));
                assert(decreases_to!(self.child_paths@ => self.child_paths@[k as int]));
                lemma_reports_ok(reports@, text);
            }
            let mut sub = self.child_paths[k].gather_reports(Ghost(a.nodes@[k as int]), Ghost(text));
            let ghost before = reports@;
            let ghost added = sub@;
            reports.append(&mut sub);
            proof {
                assert(reports@ =~= before + added);
                lemma_report_views_add(before, added);
                assert(self.child_paths@.take(k + 1) =~= self.child_paths@.take(k as int).push(self.child_paths@[k as int]));
                lemma_children_views_push(self.child_paths@.take(k as int), self.child_paths@[k as int]);
                lemma_reports_ok(added, text);
                assert forall|i: int| 0 <= i < reports.len() implies #[trigger] report_ok(reports@[i], text) by {
                    if i < before.len() {
                        assert(reports@[i] == before[i]);
                    } else {
                        assert(reports@[i] == added[i - before.len()]);
                    }
                }
                lemma_reports_ok(reports@, text);
            }
            k = k + 1;
        }
        proof {
            assert(self.child_paths@.take(k as int) =~= self.child_paths@);
        }
        Report { matched: self.matched, name: copy_name(&self.node.named), subreports: reports }
    }
}

impl<'a> OrStep<'a> {
    /// Compiles a **Report** object from this step and its child after a successful search (a
    /// step whose alternatives ran out has no subreports)
    pub fn make_report(&self, Ghost(o): Ghost<OrNode>, Ghost(text): Ghost<Seq<char>>) -> (r: Report)
        requires
            or_step_ok(*self, o, text),
        ensures
            report_ok(r, text),
            r.matched == self.matched,
            name_view(r.name) == name_view(self.node.named),
            r.name is Some <==> self.node.named is Some,
            report_view(r) == or_step_view(*self),
        decreases self,
    {
        let subreports = if self.which < self.node.nodes.len() {
            proof {
                assert(decreases_to!(*self => *self.child_path));
            }
            self.child_path.gather_reports(Ghost(o.nodes@[self.which as int]), Ghost(text))
        } else {
            Vec::new()
        };
        proof {
            lemma_reports_ok(subreports@, text);
            assert(self.which >= self.node.nodes.len() ==> report_views(subreports@) =~= Seq::<ReportView>::empty());
        }
        Report { matched: self.matched, name: copy_name(&self.node.named), subreports }
    }
}

/// Whether the first report of a path is that of its first repetition: an AND path of at least
/// one repetition whose node is named, and names each repetition.
pub open spec fn reports_root(p: Path) -> bool {
    &&& p is And
    &&& path_len(p) >= 2
    &&& p->And_0@[0].node.named is Some
    &&& !p->And_0@[0].node.name_outside
}

impl<'a> Path<'a> {
    /// recursively creates **Report** objects for a path. For the branches (And and Or) this means recording itself
    /// and then collecting from the children recursively. leaves just need to record themselves.
    /// A node whose name refers to all its repetitions gives a single report for them together.
    pub fn gather_reports(&self, Ghost(n): Ghost<Node>, Ghost(text): Ghost<Seq<char>>) -> (r: Vec<Report>)
        requires
            *self is Empty || path_ok(*self, n, text),
        ensures
            reports_ok(r@, text),
            reports_root(*self) ==> r.len() >= 1 && r@[0].matched == self->And_0@[1].matched
                && name_view(r@[0].name) == name_view(self->And_0@[0].node.named),
            report_views(r@) == gather_view(*self),
        decreases self,
    {
        let mut reports: Vec<Report> = Vec::new();
        proof {
            lemma_reports_ok(reports@, text);
        }
        if self.is_none() {
            proof {
                assert(report_views(reports@) =~= Seq::<ReportView>::empty());
            }
            return reports;
        }
        proof {
            lemma_path_facts(*self, n, text);
        }
        match self {
            Path::And(steps) => {
                let ghost a = node_target(n)->And_0;
                proof {
                    lemma_and_steps_index(steps@, a, text);
                    assert(chain_ok(and_ms(steps@), text));
                }
                let ghost items = and_step_views(steps@);
                let mut i: usize = if steps.len() > 1 { 1 } else { 0 };
                let first_i = i;
                proof {
                    lemma_and_step_views(steps@);
                    assert(report_views(reports@) =~= add_views(items.subrange(first_i as int, i as int)));
                }
                while i < steps.len()
                    invariant
                        first_i <= i <= steps.len(),
                        items.len() == steps.len(),
                        forall|j: int| 0 <= j < steps.len() ==> #[trigger] items[j] == and_step_view(steps@[j]),
                        report_views(reports@) == add_views(items.subrange(first_i as int, i as int)),
                        *self is And,
                        (*self)->And_0@ == steps@,
                        first_i == (if steps.len() > 1 { 1usize } else { 0usize }),
                        forall|j: int| 0 <= j < steps.len() ==> and_step_ok(#[trigger] steps@[j], a, text),
                        reports_ok(reports@, text),
                        i > first_i && first_i == 1 && steps@[1].node.named is Some ==> reports.len() >= 1
                            && reports@[0].matched == steps@[1].matched
                            && name_view(reports@[0].name) == name_view(steps@[1].node.named),
                        i == first_i ==> reports.len() == 0,
                    decreases steps.len() - i,
                {
                    proof {
                        assert(decreases_to!(*self => (*self)->And_0));
                        assert(decreases_to!((*self)->And_0 => (*self)->And_0@));
                        assert(decreases_to!((*self)->And_0@ => (*self)->And_0@[i as int]));
                    }
                    let sub = steps[i].make_report(Ghost(a), Ghost(text));
                    proof {
                        lemma_add_views_step(items, first_i as int, i as int);
                        assert(items[i as int] == report_view(sub));
                    }
                    add_report(&mut reports, sub, Ghost(text));
                    i = i + 1;
                }
                proof {
                    assert(items.subrange(first_i as int, i as int) =~= items.skip(first_i as int));
                    assert(*steps@[0].node == a);
                    if steps.len() > 1 {
                        assert(*steps@[1].node == a);
                    }
                }
                if steps[0].node.name_outside {
                    let last = steps.len() - 1;
                    proof {
                        assert(and_ms(steps@)[0] == steps@[0].matched);
                        assert(and_ms(steps@)[last as int] == steps@[last as int].matched);
                        lemma_chain_mono(and_ms(steps@), text, last as int);
                    }
                    reports = collapse(reports, steps[0].matched, steps[last].matched, copy_name(&steps[0].node.named), Ghost(text));
                }
            },
            Path::Or(steps) => {
                let ghost o = node_target(n)->Or_0;
                proof {
                    lemma_or_steps_index(steps@, o, text);
                    assert(chain_ok(or_ms(steps@), text));
                }
                let ghost items = or_step_views(steps@);
                let mut i: usize = if steps.len() > 1 { 1 } else { 0 };
                let first_i = i;
                proof {
                    lemma_or_step_views(steps@);
                    assert(report_views(reports@) =~= add_views(items.subrange(first_i as int, i as int)));
                }
                while i < steps.len()
                    invariant
                        first_i <= i <= steps.len(),
                        first_i == (if steps.len() > 1 { 1usize } else { 0usize }),
                        items.len() == steps.len(),
                        forall|j: int| 0 <= j < steps.len() ==> #[trigger] items[j] == or_step_view(steps@[j]),
                        report_views(reports@) == add_views(items.subrange(first_i as int, i as int)),
                        *self is Or,
                        (*self)->Or_0@ == steps@,
                        forall|j: int| 0 <= j < steps.len() ==> or_step_ok(#[trigger] steps@[j], o, text),
                        reports_ok(reports@, text),
                    decreases steps.len() - i,
                {
                    proof {
                        assert(decreases_to!(*self => (*self)->Or_0));
                        assert(decreases_to!((*self)->Or_0 => (*self)->Or_0@));
                        assert(decreases_to!((*self)->Or_0@ => (*self)->Or_0@[i as int]));
                    }
                    let sub = steps[i].make_report(Ghost(o), Ghost(text));
                    proof {
                        lemma_add_views_step(items, first_i as int, i as int);
                        assert(items[i as int] == report_view(sub));
                    }
                    add_report(&mut reports, sub, Ghost(text));
                    i = i + 1;
                }
                proof {
                    assert(items.subrange(first_i as int, i as int) =~= items.skip(first_i as int));
                }
                if steps[0].node.name_outside {
                    let last = steps.len() - 1;
                    proof {
                        assert(or_ms(steps@)[0] == steps@[0].matched);
                        assert(or_ms(steps@)[last as int] == steps@[last as int].matched);
                        lemma_chain_mono(or_ms(steps@), text, last as int);
                    }
                    reports = collapse(reports, steps[0].matched, steps[last].matched, copy_name(&steps[0].node.named), Ghost(text));
                }
            },
            Path::Chars(steps) => {
                proof {
                    assert(chain_ok(chars_ms(steps@), text));
                }
                let ghost items = Seq::new(steps@.len(), |j: int| leaf_view(steps@[j].matched, steps@[j].node.named));
                let mut i: usize = if steps.len() > 1 { 1 } else { 0 };
                let first_i = i;
                proof {
                    assert(report_views(reports@) =~= add_named_views(items.subrange(first_i as int, i as int)));
                }
                while i < steps.len()
                    invariant
                        first_i <= i <= steps.len(),
                        items == Seq::new(steps@.len(), |j: int| leaf_view(steps@[j].matched, steps@[j].node.named)),
                        report_views(reports@) == add_named_views(items.subrange(first_i as int, i as int)),
                        chain_ok(chars_ms(steps@), text),
                        reports_ok(reports@, text),
                    decreases steps.len() - i,
                {
                    proof {
                        assert(chars_ms(steps@)[i as int] == steps@[i as int].matched);
                    }
                    let sub = leaf_report(steps[i].matched, &steps[i].node.named, Ghost(text));
                    proof {
                        lemma_add_views_step(items, first_i as int, i as int);
                        assert(items[i as int] == report_view(sub));
                    }
                    add_named_report(&mut reports, sub, Ghost(text));
                    i = i + 1;
                }
                proof {
                    assert(items.subrange(first_i as int, i as int) =~= items.skip(first_i as int));
                }
                if steps[0].node.name_outside {
                    let last = steps.len() - 1;
                    proof {
                        assert(chars_ms(steps@)[0] == steps@[0].matched);
                        assert(chars_ms(steps@)[last as int] == steps@[last as int].matched);
                        lemma_chain_mono(chars_ms(steps@), text, last as int);
                    }
                    reports = collapse(reports, steps[0].matched, steps[last].matched, copy_name(&steps[0].node.named), Ghost(text));
                }
            },
            Path::Special(steps) => {
                proof {
                    assert(chain_ok(special_ms(steps@), text));
                }
                let ghost items = Seq::new(steps@.len(), |j: int| leaf_view(steps@[j].matched, steps@[j].node.named));
                let mut i: usize = if steps.len() > 1 { 1 } else { 0 };
                let first_i = i;
                proof {
                    assert(report_views(reports@) =~= add_named_views(items.subrange(first_i as int, i as int)));
                }
                while i < steps.len()
                    invariant
                        first_i <= i <= steps.len(),
                        items == Seq::new(steps@.len(), |j: int| leaf_view(steps@[j].matched, steps@[j].node.named)),
                        report_views(reports@) == add_named_views(items.subrange(first_i as int, i as int)),
                        chain_ok(special_ms(steps@), text),
                        reports_ok(reports@, text),
                    decreases steps.len() - i,
                {
                    proof {
                        assert(special_ms(steps@)[i as int] == steps@[i as int].matched);
                    }
                    let sub = leaf_report(steps[i].matched, &steps[i].node.named, Ghost(text));
                    proof {
                        lemma_add_views_step(items, first_i as int, i as int);
                        assert(items[i as int] == report_view(sub));
                    }
                    add_named_report(&mut reports, sub, Ghost(text));
                    i = i + 1;
                }
                proof {
                    assert(items.subrange(first_i as int, i as int) =~= items.skip(first_i as int));
                }
                if steps[0].node.name_outside {
                    let last = steps.len() - 1;
                    proof {
                        assert(special_ms(steps@)[0] == steps@[0].matched);
                        assert(special_ms(steps@)[last as int] == steps@[last as int].matched);
                        lemma_chain_mono(special_ms(steps@), text, last as int);
                    }
                    reports = collapse(reports, steps[0].matched, steps[last].matched, copy_name(&steps[0].node.named), Ghost(text));
                }
            },
            Path::Range(steps) => {
                proof {
                    assert(chain_ok(range_ms(steps@), text));
                }
                let ghost items = Seq::new(steps@.len(), |j: int| leaf_view(steps@[j].matched, steps@[j].node.named));
                let mut i: usize = if steps.len() > 1 { 1 } else { 0 };
                let first_i = i;
                proof {
                    assert(report_views(reports@) =~= add_named_views(items.subrange(first_i as int, i as int)));
                }
                while i < steps.len()
                    invariant
                        first_i <= i <= steps.len(),
                        items == Seq::new(steps@.len(), |j: int| leaf_view(steps@[j].matched, steps@[j].node.named)),
                        report_views(reports@) == add_named_views(items.subrange(first_i as int, i as int)),
                        chain_ok(range_ms(steps@), text),
                        reports_ok(reports@, text),
                    decreases steps.len() - i,
                {
                    proof {
                        assert(range_ms(steps@)[i as int] == steps@[i as int].matched);
                    }
                    let sub = leaf_report(steps[i].matched, &steps[i].node.named, Ghost(text));
                    proof {
                        lemma_add_views_step(items, first_i as int, i as int);
                        assert(items[i as int] == report_view(sub));
                    }
                    add_named_report(&mut reports, sub, Ghost(text));
                    i = i + 1;
                }
                proof {
                    assert(items.subrange(first_i as int, i as int) =~= items.skip(first_i as int));
                }
                if steps[0].node.name_outside {
                    let last = steps.len() - 1;
                    proof {
                        assert(range_ms(steps@)[0] == steps@[0].matched);
                        assert(range_ms(steps@)[last as int] == steps@[last as int].matched);
                        lemma_chain_mono(range_ms(steps@), text, last as int);
                    }
                    reports = collapse(reports, steps[0].matched, steps[last].matched, copy_name(&steps[0].node.named), Ghost(text));
                }
            },
            Path::Empty => {},
        }
        reports
    }
}


/// Finds the successive matches of the tree in **text**, from **start** on: each search starts
/// where the match before it ended (one character further on, after a match of no characters). At most
/// **max** matches are found (all of them if **max** is 0). The matches come in order of their
/// place in the text and do not overlap.
pub fn search_all<'a>(tree: &'a Node, text: &Text, start: usize, max: usize) -> (r: Result<Vec<Path<'a>>, Error>)
    requires
        node_resolved(*tree),
        start <= text@.len(),
    ensures
        r matches Ok(ps) ==> max > 0 ==> ps.len() <= max,
        r matches Ok(ps) ==> forall|i: int| 0 <= i < ps.len() ==> found_match(#[trigger] ps@[i], *tree, start as int, text@),
        r matches Ok(ps) ==> forall|i: int| 0 < i < ps.len() ==> path_end(ps@[i - 1]) <= path_start(#[trigger] ps@[i]),
        sure_walk(*tree) && !(tree is And && tree->And_0.anchor && start > 0)
            ==> r is Err || (r matches Ok(ps) && ps.len() >= 1 && path_start(ps@[0]) == start),
        search_all_agrees(r, search_all_model(*tree, text@, start as int, max as int, Seq::empty())),
        r matches Err(e) ==> e.code == 200 || e.code == 202,
{
    let ghost total = search_all_model(*tree, text@, start as int, max as int, Seq::empty());
    let mut found: Vec<Path<'a>> = Vec::new();
    let len = text.len();
    let mut from = start;
    proof {
        assert(kids_view(found@) =~= Seq::<PathView>::empty());
    }
    loop
        invariant_except_break
            search_all_model(*tree, text@, from as int, max as int, kids_view(found@)) == total,
            found.len() > 0 ==> path_end(found@[found.len() - 1]) <= from,
        invariant
            total == search_all_model(*tree, text@, start as int, max as int, Seq::empty()),
            start <= from <= len + 1,
            len == text@.len(),
            node_resolved(*tree),
            max > 0 ==> found.len() <= max,
            forall|i: int| 0 <= i < found.len() ==> found_match(#[trigger] found@[i], *tree, start as int, text@),
            forall|i: int| 0 < i < found.len() ==> path_end(found@[i - 1]) <= path_start(#[trigger] found@[i]),
            found.len() == 0 ==> from == start,
            start <= len,
            sure_walk(*tree) && !(tree is And && tree->And_0.anchor && start > 0) && found.len() > 0
                ==> path_start(found@[0]) == start,
        ensures
            max > 0 ==> found.len() <= max,
            forall|i: int| 0 <= i < found.len() ==> found_match(#[trigger] found@[i], *tree, start as int, text@),
            forall|i: int| 0 < i < found.len() ==> path_end(found@[i - 1]) <= path_start(#[trigger] found@[i]),
            sure_walk(*tree) && !(tree is And && tree->And_0.anchor && start > 0)
                ==> found.len() >= 1 && path_start(found@[0]) == start,
            total == Ok::<Seq<PathView>, usize>(kids_view(found@)),
        decreases len + 1 - from,
    {
        proof {
            lemma_kids_view(found@);
        }
        if from > len || (max > 0 && found.len() == max) {
            break;
        }
        match walk_tree(tree, text, from)? {
            None => {
                break;
            },
            Some(path) => {
                proof {
                    lemma_path_facts(path, *tree, text@);
                    lemma_path_view(path);
                    lemma_kids_view_push(found@, path);
                }
                let begin = path.char_start();
                let end = path.char_end();
                let ghost before = found@;
                found.push(path);
                proof {
                    assert(found@[found.len() - 1] == path);
                    assert(found@[0] == if before.len() > 0 { before[0] } else { path });
                    assert forall|i: int| 0 <= i < found.len() implies found_match(#[trigger] found@[i], *tree, start as int, text@) by {
                        if i < before.len() {
                            assert(found@[i] == before[i]);
                        }
                    }
                    assert forall|i: int| 0 < i < found.len() implies path_end(found@[i - 1]) <= path_start(#[trigger] found@[i]) by {
                        if i < before.len() {
                            assert(found@[i] == before[i]);
                            assert(found@[i - 1] == before[i - 1]);
                        } else {
                            assert(found@[i - 1] == before[i - 1]);
                        }
                    }
                }
                if begin < end {
                    from = end;
                } else if end < len {
                    from = end + 1;
                } else {
                    break;
                }
            },
        }
    }
    Ok(found)
}


/// The reports **vs** lie one after the other between the character positions **lo** and
/// **hi**, each with its own subreports one after the other within it.
pub open spec fn views_in(vs: Seq<ReportView>, lo: int, hi: int) -> bool
    decreases vs,
{
    if vs.len() == 0 {
        lo <= hi
    } else {
        &&& lo <= vs[0].matched.char_start
        &&& vs[0].matched.char_start <= vs[0].matched.char_end
        &&& views_in(vs[0].subs, vs[0].matched.char_start as int, vs[0].matched.char_end as int)
        &&& views_in(vs.drop_first(), vs[0].matched.char_end as int, hi)
    }
}

/// Where reports that lie one after the other from **lo** end.
pub open spec fn views_end(vs: Seq<ReportView>, lo: int) -> int {
    if vs.len() == 0 { lo } else { vs.last().matched.char_end as int }
}

/// Reports that lie between **lo** and **hi** lie between any wider bounds.
proof fn lemma_views_in_widen(vs: Seq<ReportView>, lo: int, hi: int, lo2: int, hi2: int)
    requires
        views_in(vs, lo, hi),
        lo2 <= lo,
        hi <= hi2,
    ensures
        views_in(vs, lo2, hi2),
    decreases vs.len(),
{
    if vs.len() > 0 {
        lemma_views_in_widen(vs.drop_first(), vs[0].matched.char_end as int, hi, vs[0].matched.char_end as int, hi2);
    }
}

/// Reports between **lo** and **m** followed by reports between **m** and **hi** lie between
/// **lo** and **hi**.
proof fn lemma_views_in_add(a: Seq<ReportView>, b: Seq<ReportView>, lo: int, m: int, hi: int)
    requires
        views_in(a, lo, m),
        views_in(b, m, hi),
    ensures
        views_in(a + b, lo, hi),
    decreases a.len(),
{
    if a.len() == 0 {
        assert(a + b =~= b);
        lemma_views_in_widen(b, m, hi, lo, hi);
    } else {
        lemma_views_in_add(a.drop_first(), b, a[0].matched.char_end as int, m, hi);
        assert((a + b).drop_first() =~= a.drop_first() + b);
        assert((a + b)[0] == a[0]);
    }
}

/// Reports that lie between **lo** and **hi**: those but the last lie between **lo** and where
/// they end, the last after that.
proof fn lemma_views_in_split(vs: Seq<ReportView>, lo: int, hi: int)
    requires
        views_in(vs, lo, hi),
        vs.len() > 0,
    ensures
        views_in(vs.drop_last(), lo, views_end(vs.drop_last(), lo)),
        views_end(vs.drop_last(), lo) <= vs.last().matched.char_start,
        vs.last().matched.char_start <= vs.last().matched.char_end <= hi,
        views_in(vs.last().subs, vs.last().matched.char_start as int, vs.last().matched.char_end as int),
    decreases vs.len(),
{
    if vs.len() == 1 {
        assert(vs.drop_last() =~= Seq::<ReportView>::empty());
        assert(views_in(vs.drop_first(), vs[0].matched.char_end as int, hi));
    } else {
        let t = vs.drop_first();
        lemma_views_in_split(t, vs[0].matched.char_end as int, hi);
        assert(t.drop_last() =~= vs.drop_last().drop_first());
        assert(t.last() == vs.last());
        assert(vs.drop_last()[0] == vs[0]);
        if t.drop_last().len() > 0 {
            assert(views_end(t.drop_last(), vs[0].matched.char_end as int) == views_end(vs.drop_last(), lo));
        }
    }
}


/// Reports that end where they end lie within any upper bound of the list they come from.
proof fn lemma_views_end_le(vs: Seq<ReportView>, lo: int, hi: int)
    requires
        views_in(vs, lo, hi),
    ensures
        lo <= views_end(vs, lo) <= hi,
        views_in(vs, lo, views_end(vs, lo)),
    decreases vs.len(),
{
    if vs.len() > 0 {
        lemma_views_in_split(vs, lo, hi);
        let d = vs.drop_last();
        let x = vs.last();
        lemma_views_end_le(d, lo, views_end(d, lo));
        assert(views_in(seq![x], views_end(d, lo), x.matched.char_end as int)) by {
            assert(seq![x].drop_first() =~= Seq::<ReportView>::empty());
            assert(seq![x][0] == x);
            assert(views_in(Seq::<ReportView>::empty(), x.matched.char_end as int, x.matched.char_end as int));
        }
        lemma_views_in_add(d, seq![x], lo, views_end(d, lo), x.matched.char_end as int);
        assert(d + seq![x] =~= vs);
    }
}

/// Adding the reports of the steps of an AND or OR path keeps them in order within their bounds.
proof fn lemma_add_views_in(items: Seq<ReportView>, lo: int, hi: int)
    requires
        views_in(items, lo, hi),
    ensures
        views_in(add_views(items), lo, hi),
        views_in(add_named_views(items), lo, hi),
    decreases items.len(),
{
    lemma_views_end_le(items, lo, hi);
    lemma_add_views_in_end(items, lo, hi);
    lemma_views_in_widen(add_views(items), lo, views_end(items, lo), lo, hi);
    lemma_views_in_widen(add_named_views(items), lo, views_end(items, lo), lo, hi);
}

/// **lemma_add_views_in**, bounded by where the reports end.
proof fn lemma_add_views_in_end(items: Seq<ReportView>, lo: int, hi: int)
    requires
        views_in(items, lo, hi),
    ensures
        views_in(add_views(items), lo, views_end(items, lo)),
        views_in(add_named_views(items), lo, views_end(items, lo)),
    decreases items.len(),
{
    if items.len() > 0 {
        lemma_views_in_split(items, lo, hi);
        let d = items.drop_last();
        let x = items.last();
        let e = views_end(d, lo);
        lemma_add_views_in_end(d, lo, e);
        let xs = x.matched.char_start as int;
        let xe = x.matched.char_end as int;
        assert(views_in(seq![x], e, xe)) by {
            assert(seq![x].drop_first() =~= Seq::<ReportView>::empty());
            assert(seq![x][0] == x);
            assert(views_in(Seq::<ReportView>::empty(), xe, xe));
        }
        if x.name is None {
            lemma_views_in_widen(x.subs, xs, xe, e, xe);
            lemma_views_in_add(add_views(d), x.subs, lo, e, xe);
            lemma_views_in_widen(add_named_views(d), lo, e, lo, xe);
        } else {
            lemma_views_in_add(add_views(d), seq![x], lo, e, xe);
            assert(add_views(d).push(x) =~= add_views(d) + seq![x]);
            lemma_views_in_add(add_named_views(d), seq![x], lo, e, xe);
            assert(add_named_views(d).push(x) =~= add_named_views(d) + seq![x]);
        }
    } else {
        assert(add_views(items) =~= Seq::<ReportView>::empty());
        assert(add_named_views(items) =~= Seq::<ReportView>::empty());
    }
}


/// Reports one after the other, each within its own match and with its subreports in order
/// within it, lie between **lo** and **hi** if the first starts at or after **lo** and the last
/// ends at or before **hi**.
proof fn lemma_chain_views_in(vs: Seq<ReportView>, lo: int, hi: int)
    requires
        forall|i: int| 0 <= i < vs.len() ==> (#[trigger] vs[i]).matched.char_start <= vs[i].matched.char_end
            && views_in(vs[i].subs, vs[i].matched.char_start as int, vs[i].matched.char_end as int),
        forall|i: int| 0 < i < vs.len() ==> (#[trigger] vs[i]).matched.char_start >= vs[i - 1].matched.char_end,
        vs.len() > 0 ==> lo <= vs[0].matched.char_start && vs.last().matched.char_end <= hi,
        vs.len() == 0 ==> lo <= hi,
    ensures
        views_in(vs, lo, hi),
    decreases vs.len(),
{
    if vs.len() > 0 {
        let t = vs.drop_first();
        assert forall|i: int| 0 <= i < t.len() implies (#[trigger] t[i]).matched.char_start <= t[i].matched.char_end
            && views_in(t[i].subs, t[i].matched.char_start as int, t[i].matched.char_end as int) by {
            assert(t[i] == vs[i + 1]);
        }
        assert forall|i: int| 0 < i < t.len() implies (#[trigger] t[i]).matched.char_start >= t[i - 1].matched.char_end by {
            assert(t[i] == vs[i + 1]);
            assert(t[i - 1] == vs[i]);
        }
        if t.len() > 0 {
            assert(t[0] == vs[1]);
            assert(t.last() == vs.last());
        } else {
            assert(vs.len() == 1);
        }
        lemma_chain_views_in(t, vs[0].matched.char_end as int, hi);
        assert(vs[0] == vs[0]);
    }
}

/// A walk in which no node's name refers to all its repetitions together.
pub open spec fn outside_free(p: Path) -> bool
    decreases p,
{
    match p {
        Path::Chars(s) => s@.len() > 0 ==> !s@[0].node.name_outside,
        Path::Special(s) => s@.len() > 0 ==> !s@[0].node.name_outside,
        Path::Range(s) => s@.len() > 0 ==> !s@[0].node.name_outside,
        Path::And(s) => (s@.len() > 0 ==> !s@[0].node.name_outside) && and_steps_free(s@),
        Path::Or(s) => (s@.len() > 0 ==> !s@[0].node.name_outside) && or_steps_free(s@),
        Path::Empty => true,
    }
}

/// **outside_free** for the child walks of AND steps.
pub open spec fn and_steps_free(s: Seq<AndStep>) -> bool
    decreases s,
{
    s.len() == 0 || (kids_free(s[0].child_paths@) && and_steps_free(s.drop_first()))
}

/// **outside_free** for the child walks of OR steps.
pub open spec fn or_steps_free(s: Seq<OrStep>) -> bool
    decreases s,
{
    s.len() == 0 || (outside_free(*s[0].child_path) && or_steps_free(s.drop_first()))
}

/// **outside_free** for a list of walks.
pub open spec fn kids_free(ps: Seq<Path>) -> bool
    decreases ps,
{
    ps.len() == 0 || (outside_free(ps[0]) && kids_free(ps.drop_first()))
}

/// **and_steps_free** and **or_steps_free** step by step.
proof fn lemma_steps_free(a: Seq<AndStep>, o: Seq<OrStep>)
    ensures
        and_steps_free(a) ==> forall|i: int| 0 <= i < a.len() ==> kids_free(#[trigger] a[i].child_paths@),
        or_steps_free(o) ==> forall|i: int| 0 <= i < o.len() ==> outside_free(*(#[trigger] o[i]).child_path),
    decreases a.len() + o.len(),
{
    if a.len() > 0 {
        lemma_steps_free(a.drop_first(), o);
        if and_steps_free(a) {
            assert forall|i: int| 0 <= i < a.len() implies kids_free(#[trigger] a[i].child_paths@) by {
                if i > 0 {
                    assert(a[i] == a.drop_first()[i - 1]);
                }
            }
        }
    }
    if o.len() > 0 {
        lemma_steps_free(a, o.drop_first());
        if or_steps_free(o) {
            assert forall|i: int| 0 <= i < o.len() implies outside_free(*(#[trigger] o[i]).child_path) by {
                if i > 0 {
                    assert(o[i] == o.drop_first()[i - 1]);
                }
            }
        }
    }
}


/// The reports that finishing a path gives from the reports of its steps, when the steps lie
/// one after the other in the text and each report lies with its subreports within its step,
/// lie in order within the path (unless the node's name refers to all its repetitions).
proof fn lemma_finish_in(items: Seq<ReportView>, ms: Seq<Matched>, text: Seq<char>, leaf: bool, name: Option<Seq<char>>)
    requires
        chain_ok(ms, text),
        items.len() == ms.len(),
        forall|i: int| 0 <= i < items.len() ==> (#[trigger] items[i]).matched == ms[i]
            && views_in(items[i].subs, ms[i].char_start as int, ms[i].char_end as int),
    ensures
        views_in(finish_views(items, leaf, ms[0], ms.last(), name, false), ms[0].char_start as int, ms.last().char_end as int),
{
    let from: int = if items.len() > 1 { 1 } else { 0 };
    let it = items.skip(from);
    assert forall|i: int| 0 <= i < it.len() implies (#[trigger] it[i]).matched.char_start <= it[i].matched.char_end
        && views_in(it[i].subs, it[i].matched.char_start as int, it[i].matched.char_end as int) by {
        assert(it[i] == items[i + from]);
        assert(matched_ok(ms[i + from], text));
    }
    assert forall|i: int| 0 < i < it.len() implies (#[trigger] it[i]).matched.char_start >= it[i - 1].matched.char_end by {
        assert(it[i] == items[i + from]);
        assert(it[i - 1] == items[i - 1 + from]);
    }
    assert(it[0] == items[from]);
    assert(it.last() == items.last());
    assert(matched_ok(ms[0], text));
    lemma_chain_views_in(it, ms[0].char_start as int, ms.last().char_end as int);
    lemma_add_views_in(it, ms[0].char_start as int, ms.last().char_end as int);
}

/// A walk lies in the text as a chain of matches.
proof fn lemma_path_chain(p: Path, n: Node, text: Seq<char>)
    requires
        path_ok(p, n, text),
    ensures
        chain_ok(path_ms(p), text),
{
}

/// The reports of a walk lie in order within it: each report within the walk, after the one
/// before it, with its own subreports in order within it, as long as no node's name refers to
/// all its repetitions together (such a report gathers the subreports of the repetitions from
/// the last to the first).
pub proof fn law_reports_in_order(p: Path, n: Node, text: Seq<char>)
    requires
        path_ok(p, n, text),
        outside_free(p),
    ensures
        views_in(gather_view(p), path_start(p), path_end(p)),
    decreases p,
{
    lemma_path_chain(p, n, text);
    let ms = path_ms(p);
    match p {
        Path::Chars(s) => {
            let items = Seq::new(s@.len(), |i: int| leaf_view(s@[i].matched, s@[i].node.named));
            assert forall|i: int| 0 <= i < items.len() implies (#[trigger] items[i]).matched == ms[i]
                && views_in(items[i].subs, ms[i].char_start as int, ms[i].char_end as int) by {
                assert(matched_ok(ms[i], text));
            }
            lemma_finish_in(items, ms, text, true, name_view(s@[0].node.named));
        },
        Path::Special(s) => {
            let items = Seq::new(s@.len(), |i: int| leaf_view(s@[i].matched, s@[i].node.named));
            assert forall|i: int| 0 <= i < items.len() implies (#[trigger] items[i]).matched == ms[i]
                && views_in(items[i].subs, ms[i].char_start as int, ms[i].char_end as int) by {
                assert(matched_ok(ms[i], text));
            }
            lemma_finish_in(items, ms, text, true, name_view(s@[0].node.named));
        },
        Path::Range(s) => {
            let items = Seq::new(s@.len(), |i: int| leaf_view(s@[i].matched, s@[i].node.named));
            assert forall|i: int| 0 <= i < items.len() implies (#[trigger] items[i]).matched == ms[i]
                && views_in(items[i].subs, ms[i].char_start as int, ms[i].char_end as int) by {
                assert(matched_ok(ms[i], text));
            }
            lemma_finish_in(items, ms, text, true, name_view(s@[0].node.named));
        },
        Path::And(s) => {
            let a = node_target(n)->And_0;
            let items = and_step_views(s@);
            lemma_and_step_views(s@);
            lemma_and_steps_index(s@, a, text);
            lemma_steps_free(s@, Seq::<OrStep>::empty());
            assert forall|i: int| 0 <= i < items.len() implies (#[trigger] items[i]).matched == ms[i]
                && views_in(items[i].subs, ms[i].char_start as int, ms[i].char_end as int) by {
                let st = s@[i];
                assert(and_step_ok(st, a, text));
                lemma_children_views_in(st.child_paths@, a.nodes@, st.matched.char_start as int, text);
            }
            lemma_finish_in(items, ms, text, false, name_view(s@[0].node.named));
        },
        Path::Or(s) => {
            let o = node_target(n)->Or_0;
            let items = or_step_views(s@);
            lemma_or_step_views(s@);
            lemma_or_steps_index(s@, o, text);
            lemma_steps_free(Seq::<AndStep>::empty(), s@);
            assert forall|i: int| 0 <= i < items.len() implies (#[trigger] items[i]).matched == ms[i]
                && views_in(items[i].subs, ms[i].char_start as int, ms[i].char_end as int) by {
                let st = s@[i];
                assert(or_step_ok(st, o, text));
                assert(matched_ok(ms[i], text));
                if st.which < st.node.nodes.len() && !(*st.child_path is Empty) {
                    law_reports_in_order(*st.child_path, o.nodes@[st.which as int], text);
                }
            }
            lemma_finish_in(items, ms, text, false, name_view(s@[0].node.named));
        },
        Path::Empty => {},
    }
}

/// The reports of child walks one after the other lie in order from where the first starts to
/// where the last ends.
proof fn lemma_children_views_in(ps: Seq<Path>, ns: Seq<Node>, start: int, text: Seq<char>)
    requires
        children_ok(ps, ns, start, text),
        kids_free(ps),
    ensures
        views_in(children_views(ps), start, children_end(ps, start)),
    decreases ps,
{
    if ps.len() == 0 {
    } else {
        law_reports_in_order(ps[0], ns[0], text);
        lemma_path_facts(ps[0], ns[0], text);
        lemma_children_views_in(ps.drop_first(), ns.drop_first(), path_end(ps[0]), text);
        lemma_views_in_add(gather_view(ps[0]), children_views(ps.drop_first()), start, path_end(ps[0]), children_end(ps.drop_first(), path_end(ps[0])));
        if ps.len() > 1 {
            assert(ps.drop_first().last() == ps.last());
        }
    }
}

/// Every report of **vs**, and every subreport within them, has a name.
pub open spec fn views_named(vs: Seq<ReportView>) -> bool
    decreases vs,
{
    vs.len() == 0 || (vs[0].name is Some && views_named(vs[0].subs) && views_named(vs.drop_first()))
}

/// Named reports followed by named reports are named reports.
proof fn lemma_views_named_add(a: Seq<ReportView>, b: Seq<ReportView>)
    requires
        views_named(a),
        views_named(b),
    ensures
        views_named(a + b),
    decreases a.len(),
{
    if a.len() == 0 {
        assert(a + b =~= b);
    } else {
        lemma_views_named_add(a.drop_first(), b);
        assert((a + b).drop_first() =~= a.drop_first() + b);
        assert((a + b)[0] == a[0]);
    }
}

/// A named report whose subreports are named, alone.
proof fn lemma_view_named_one(x: ReportView)
    requires
        x.name is Some,
        views_named(x.subs),
    ensures
        views_named(seq![x]),
{
    assert(seq![x].drop_first() =~= Seq::<ReportView>::empty());
    assert(views_named(Seq::<ReportView>::empty()));
    assert(seq![x][0] == x);
}

/// Adding the reports of steps whose subreports are named gives named reports: a report
/// without a name gives way to its subreports, or is dropped for a leaf node.
proof fn lemma_add_views_named(items: Seq<ReportView>)
    requires
        forall|i: int| 0 <= i < items.len() ==> views_named((#[trigger] items[i]).subs),
    ensures
        views_named(add_views(items)),
        views_named(add_named_views(items)),
    decreases items.len(),
{
    if items.len() > 0 {
        let d = items.drop_last();
        assert forall|i: int| 0 <= i < d.len() implies views_named((#[trigger] d[i]).subs) by {
            assert(d[i] == items[i]);
        }
        lemma_add_views_named(d);
        let x = items.last();
        assert(views_named(items[items.len() - 1].subs));
        if x.name is None {
            lemma_views_named_add(add_views(d), x.subs);
        } else {
            lemma_view_named_one(x);
            lemma_views_named_add(add_views(d), seq![x]);
            assert(add_views(d).push(x) =~= add_views(d) + seq![x]);
            lemma_views_named_add(add_named_views(d), seq![x]);
            assert(add_named_views(d).push(x) =~= add_named_views(d) + seq![x]);
        }
    }
}

/// Finishing the reports of steps whose subreports are named gives named reports, unless the
/// node's name refers to all its repetitions.
proof fn lemma_finish_named(items: Seq<ReportView>, leaf: bool, first: Matched, last: Matched, name: Option<Seq<char>>)
    requires
        forall|i: int| 0 <= i < items.len() ==> views_named((#[trigger] items[i]).subs),
    ensures
        views_named(finish_views(items, leaf, first, last, name, false)),
{
    let from: int = if items.len() > 1 { 1 } else { 0 };
    let it = items.skip(from);
    assert forall|i: int| 0 <= i < it.len() implies views_named((#[trigger] it[i]).subs) by {
        assert(it[i] == items[i + from]);
    }
    lemma_add_views_named(it);
}

/// The reports of a walk all have names, their subreports too, as long as no node's name refers
/// to all its repetitions: a step of a node without a name gives way to the reports within it.
pub proof fn law_reports_named(p: Path, n: Node, text: Seq<char>)
    requires
        path_ok(p, n, text),
        outside_free(p),
    ensures
        views_named(gather_view(p)),
    decreases p,
{
    match p {
        Path::Chars(s) => {
            let items = Seq::new(s@.len(), |i: int| leaf_view(s@[i].matched, s@[i].node.named));
            assert forall|i: int| 0 <= i < items.len() implies views_named((#[trigger] items[i]).subs) by {}
            lemma_finish_named(items, true, s@[0].matched, s@.last().matched, name_view(s@[0].node.named));
        },
        Path::Special(s) => {
            let items = Seq::new(s@.len(), |i: int| leaf_view(s@[i].matched, s@[i].node.named));
            assert forall|i: int| 0 <= i < items.len() implies views_named((#[trigger] items[i]).subs) by {}
            lemma_finish_named(items, true, s@[0].matched, s@.last().matched, name_view(s@[0].node.named));
        },
        Path::Range(s) => {
            let items = Seq::new(s@.len(), |i: int| leaf_view(s@[i].matched, s@[i].node.named));
            assert forall|i: int| 0 <= i < items.len() implies views_named((#[trigger] items[i]).subs) by {}
            lemma_finish_named(items, true, s@[0].matched, s@.last().matched, name_view(s@[0].node.named));
        },
        Path::And(s) => {
            let a = node_target(n)->And_0;
            let items = and_step_views(s@);
            lemma_and_step_views(s@);
            lemma_and_steps_index(s@, a, text);
            lemma_steps_free(s@, Seq::<OrStep>::empty());
            assert forall|i: int| 0 <= i < items.len() implies views_named((#[trigger] items[i]).subs) by {
                let st = s@[i];
                assert(and_step_ok(st, a, text));
                lemma_children_named(st.child_paths@, a.nodes@, st.matched.char_start as int, text);
            }
            lemma_finish_named(items, false, s@[0].matched, s@.last().matched, name_view(s@[0].node.named));
        },
        Path::Or(s) => {
            let o = node_target(n)->Or_0;
            let items = or_step_views(s@);
            lemma_or_step_views(s@);
            lemma_or_steps_index(s@, o, text);
            lemma_steps_free(Seq::<AndStep>::empty(), s@);
            assert forall|i: int| 0 <= i < items.len() implies views_named((#[trigger] items[i]).subs) by {
                let st = s@[i];
                assert(or_step_ok(st, o, text));
                if st.which < st.node.nodes.len() && !(*st.child_path is Empty) {
                    law_reports_named(*st.child_path, o.nodes@[st.which as int], text);
                }
            }
            lemma_finish_named(items, false, s@[0].matched, s@.last().matched, name_view(s@[0].node.named));
        },
        Path::Empty => {},
    }
}

/// The reports of child walks whose nodes' names never refer to all their repetitions all have
/// names.
proof fn lemma_children_named(ps: Seq<Path>, ns: Seq<Node>, start: int, text: Seq<char>)
    requires
        children_ok(ps, ns, start, text),
        kids_free(ps),
    ensures
        views_named(children_views(ps)),
    decreases ps,
{
    if ps.len() > 0 {
        law_reports_named(ps[0], ns[0], text);
        lemma_children_named(ps.drop_first(), ns.drop_first(), path_end(ps[0]), text);
        lemma_views_named_add(gather_view(ps[0]), children_views(ps.drop_first()));
    }
}

} // verus!
