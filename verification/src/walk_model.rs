//! ## The search, stated step by step
//! The walk of the tree is a backtracking search. These functions say what it computes: each
//! follows one operation of the walk (take the first walk of a node, take one more step, back
//! off a step or a walk) on views of the walk, counting each unit of work against a budget as
//! the walk does. A walk that has used up its budget stops with error 202; a repetition with no
//! upper limit that matches the empty string is stopped with error 200, looked for at every
//! thirtieth repetition.
use vstd::prelude::*;

use crate::error::Error;
use crate::limits::EFFECTIVELY_INFINITE;
use crate::tree::{node_limits, AndNode, Node, OrNode};
use crate::walk::{
    chars_step_possible, node_target, path_end, path_len, path_start, range_step_possible, special_step_possible, AndStep,
    OrStep, Path, SEARCH_BUDGET,
};

verus! {

/// A walk, as the character ranges its steps match.
pub enum PathView {
    /// the steps of a walk of a Chars, Special or Range node
    Leaf(Seq<(int, int)>),
    And(Seq<AndStepView>),
    Or(Seq<OrStepView>),
    Empty,
}

/// A step of an AND walk: what it matches and the walks of the children it has taken.
pub struct AndStepView {
    pub span: (int, int),
    pub kids: Seq<PathView>,
}

/// A step of an OR walk: what it matches, which alternative it takes and the walk of it.
pub struct OrStepView {
    pub span: (int, int),
    pub which: int,
    pub kid: PathView,
}

/// The view of a walk.
pub open spec fn path_view(p: Path) -> PathView
    decreases p, 0nat,
{
    match p {
        Path::Chars(s) => PathView::Leaf(leaf_spans_c(s@)),
        Path::Special(s) => PathView::Leaf(leaf_spans_s(s@)),
        Path::Range(s) => PathView::Leaf(leaf_spans_r(s@)),
        Path::And(s) => PathView::And(and_views(s@)),
        Path::Or(s) => PathView::Or(or_views(s@)),
        Path::Empty => PathView::Empty,
    }
}

/// The views of the steps of an AND walk.
pub open spec fn and_views(s: Seq<AndStep>) -> Seq<AndStepView>
    decreases s, 1nat,
{
    if s.len() == 0 {
        Seq::empty()
    } else {
        and_views(s.drop_last()).push(and_view(s.last()))
    }
}

/// The view of a step of an AND walk.
pub open spec fn and_view(st: AndStep) -> AndStepView
    decreases st, 0nat,
{
    AndStepView { span: (st.matched.char_start as int, st.matched.char_end as int), kids: kids_view(st.child_paths@) }
}

/// The views of a list of walks.
pub open spec fn kids_view(ps: Seq<Path>) -> Seq<PathView>
    decreases ps, 1nat,
{
    if ps.len() == 0 {
        Seq::empty()
    } else {
        kids_view(ps.drop_last()).push(path_view(ps.last()))
    }
}

/// The views of the steps of an OR walk.
pub open spec fn or_views(s: Seq<OrStep>) -> Seq<OrStepView>
    decreases s, 1nat,
{
    if s.len() == 0 {
        Seq::empty()
    } else {
        or_views(s.drop_last()).push(or_view(s.last()))
    }
}

/// The view of a step of an OR walk.
pub open spec fn or_view(st: OrStep) -> OrStepView
    decreases st, 0nat,
{
    OrStepView { span: (st.matched.char_start as int, st.matched.char_end as int), which: st.which as int, kid: path_view(*st.child_path) }
}

/// The ranges of Chars steps.
pub open spec fn leaf_spans_c(s: Seq<crate::walk::CharsStep>) -> Seq<(int, int)> {
    Seq::new(s.len(), |i: int| (s[i].matched.char_start as int, s[i].matched.char_end as int))
}

/// The ranges of Special steps.
pub open spec fn leaf_spans_s(s: Seq<crate::walk::SpecialStep>) -> Seq<(int, int)> {
    Seq::new(s.len(), |i: int| (s[i].matched.char_start as int, s[i].matched.char_end as int))
}

/// The ranges of Range steps.
pub open spec fn leaf_spans_r(s: Seq<crate::walk::RangeStep>) -> Seq<(int, int)> {
    Seq::new(s.len(), |i: int| (s[i].matched.char_start as int, s[i].matched.char_end as int))
}

/// The number of steps of a walk.
pub open spec fn pv_len(p: PathView) -> int {
    match p {
        PathView::Leaf(s) => s.len() as int,
        PathView::And(s) => s.len() as int,
        PathView::Or(s) => s.len() as int,
        PathView::Empty => 0,
    }
}

/// Where a walk starts: the start of its first step.
pub open spec fn pv_start(p: PathView) -> int {
    match p {
        PathView::Leaf(s) => s[0].0,
        PathView::And(s) => s[0].span.0,
        PathView::Or(s) => s[0].span.0,
        PathView::Empty => 0,
    }
}

/// Where a walk ends: the end of its last step.
pub open spec fn pv_end(p: PathView) -> int {
    match p {
        PathView::Leaf(s) => s.last().1,
        PathView::And(s) => s.last().span.1,
        PathView::Or(s) => s.last().span.1,
        PathView::Empty => 0,
    }
}

/// Whether a walk of **n** with **len** steps is within the node's limits.
pub open spec fn within(n: Node, len: int) -> bool {
    node_limits(node_target(n)).spec_check(len) == 0
}

/// Whether the infinite-loop check stops a repetition with no upper limit that matched **span**.
pub open spec fn loop_stops(span: (int, int), max: usize) -> bool {
    span.0 == span.1 && max == EFFECTIVELY_INFINITE
}

/// The length of the step that the leaf node **n** takes from **pos**, if it can take one.
pub open spec fn leaf_step(n: Node, pos: int, text: Seq<char>) -> Option<int> {
    match n {
        Node::Chars(c) => if chars_step_possible(c, pos, text) { Some(c.string@.len() as int) } else { None },
        Node::Special(c) => if special_step_possible(c, pos, text) {
            Some(if c.special == '$' { 0int } else { 1int })
        } else {
            None
        },
        Node::Range(c) => if range_step_possible(c, pos, text) { Some(1int) } else { None },
        _ => None,
    }
}

/// The first walk of a leaf node, from the steps **ms**: steps are taken while the node matches,
/// until the walk has **limit** repetitions.
pub open spec fn leaf_walk(n: Node, ms: Seq<(int, int)>, limit: int, text: Seq<char>) -> Seq<(int, int)>
    decreases limit + 1 - ms.len(),
{
    if ms.len() == 0 || ms.len() > limit {
        ms
    } else {
        match leaf_step(n, ms.last().1, text) {
            Some(k) => leaf_walk(n, ms.push((ms.last().1, ms.last().1 + k)), limit, text),
            None => ms,
        }
    }
}

/// Backing off a walk of a leaf node: a greedy walk drops its last step, and may back off if it
/// is still within its limits; a lazy walk takes one more step if its limits admit it and the
/// node matches again, and otherwise stays as it is.
pub open spec fn leaf_back_off_model(n: Node, ms: Seq<(int, int)>, text: Seq<char>) -> (bool, Seq<(int, int)>) {
    let l = node_limits(n);
    let len = ms.len() as int;
    if !l.spec_lazy() {
        (l.spec_check(len - 1) == 0, ms.drop_last())
    } else if len >= l.min && len <= l.max {
        match leaf_step(n, ms.last().1, text) {
            Some(k) => (true, ms.push((ms.last().1, ms.last().1 + k))),
            None => (false, ms),
        }
    } else {
        (false, ms)
    }
}

/// The first walk of **n** from position **pos**, and the budget left after it.
pub open spec fn walk_model(n: Node, pos: int, text: Seq<char>, fuel: nat) -> (Result<PathView, usize>, nat)
    decreases fuel, 0nat,
{
    if fuel == 0 {
        (Err(202), 0)
    } else {
        let f = (fuel - 1) as nat;
        match n {
            Node::Chars(_) | Node::Special(_) | Node::Range(_) => (
                Ok(PathView::Leaf(leaf_walk(n, seq![(pos, pos)], node_limits(n).spec_initial_walk_limit() as int, text))),
                f,
            ),
            Node::And(a) => and_walk_model(a, pos, text, f),
            Node::Or(o) => or_walk_model(o, pos, text, f),
            Node::Def(d) => walk_model(*d.node, pos, text, f),
            Node::Empty => (Err(0), f),
        }
    }
}

/// The first walk of the AND node **a** from **pos**: steps are taken until the walk has as many
/// repetitions as the first walk tries (MAX greedy, MIN lazy) or a step cannot be taken.
pub open spec fn and_walk_model(a: AndNode, pos: int, text: Seq<char>, fuel: nat) -> (Result<PathView, usize>, nat)
    decreases fuel, 0nat,
{
    if fuel == 0 {
        (Err(202), 0)
    } else {
        and_walk_loop(a, seq![AndStepView { span: (pos, pos), kids: Seq::empty() }],
            a.limits.spec_initial_walk_limit() as int, text, (fuel - 1) as nat)
    }
}

/// The rest of an AND walk whose steps so far are **steps**.
pub open spec fn and_walk_loop(a: AndNode, steps: Seq<AndStepView>, limit: int, text: Seq<char>, fuel: nat)
    -> (Result<PathView, usize>, nat)
    decreases fuel, 1nat,
{
    let len = steps.len() as int;
    if len == 0 || len > limit {
        (Ok(PathView::And(steps)), fuel)
    } else if len % 30 == 29 && loop_stops(steps[len - 1].span, a.limits.max) {
        (Err(200), fuel)
    } else {
        let (r, f2) = and_step_model(a, steps[len - 1], text, fuel);
        match r {
            Err(c) => (Err(c), f2),
            Ok(None) => (Ok(PathView::And(steps)), f2),
            Ok(Some(st)) => if f2 < fuel {
                and_walk_loop(a, steps.push(st), limit, text, f2)
            } else {
                (Err(0), f2)
            },
        }
    }
}

/// One more step of the AND node **a** after the step **prev**: its children are walked in turn
/// from where the one before ended, backing off the step when a child's walk is not within its
/// limits.
pub open spec fn and_step_model(a: AndNode, prev: AndStepView, text: Seq<char>, fuel: nat)
    -> (Result<Option<AndStepView>, usize>, nat)
    decreases fuel, 0nat,
{
    if fuel == 0 {
        (Err(202), 0)
    } else {
        and_step_loop(a, AndStepView { span: (prev.span.1, prev.span.1), kids: Seq::empty() }, text, (fuel - 1) as nat)
    }
}

/// The rest of an AND step whose children so far are those of **st**.
pub open spec fn and_step_loop(a: AndNode, st: AndStepView, text: Seq<char>, fuel: nat)
    -> (Result<Option<AndStepView>, usize>, nat)
    decreases fuel, 0nat,
{
    if fuel == 0 {
        (Err(202), 0)
    } else {
        let f = (fuel - 1) as nat;
        let k = st.kids.len() as int;
        if k >= a.nodes.len() {
            (Ok(Some(st)), f)
        } else {
            let (r, f2) = walk_model(a.nodes@[k], st.span.1, text, f);
            match r {
                Err(c) => (Err(c), f2),
                Ok(cp) => if within(a.nodes@[k], pv_len(cp)) {
                    if f2 < fuel {
                        and_step_loop(a, AndStepView { span: (st.span.0, pv_end(cp)), kids: st.kids.push(cp) }, text, f2)
                    } else {
                        (Err(0), f2)
                    }
                } else if f2 < fuel {
                    let (rb, st2, f3) = and_step_back_off_model(a, st, text, f2);
                    match rb {
                        Err(c) => (Err(c), f3),
                        Ok(false) => (Ok(None), f3),
                        Ok(true) => if f3 < fuel { and_step_loop(a, st2, text, f3) } else { (Err(0), f3) },
                    }
                } else {
                    (Err(0), f2)
                },
            }
        }
    }
}

/// Backing off an AND step: a lazy one does not back off; otherwise its children are taken
/// off from the last, each being backed off in turn, until one backs off, or none is left, or
/// too few are left for the node's limits.
pub open spec fn and_step_back_off_model(a: AndNode, st: AndStepView, text: Seq<char>, fuel: nat)
    -> (Result<bool, usize>, AndStepView, nat)
    decreases fuel, 0nat,
{
    if a.limits.spec_lazy() {
        (Ok(false), st, fuel)
    } else if fuel == 0 {
        (Err(202), st, 0)
    } else {
        and_back_off_loop(a, st, text, (fuel - 1) as nat)
    }
}

/// The rest of backing off an AND step whose children are now those of **st**.
pub open spec fn and_back_off_loop(a: AndNode, st: AndStepView, text: Seq<char>, fuel: nat)
    -> (Result<bool, usize>, AndStepView, nat)
    decreases fuel, 1nat,
{
    let k = st.kids.len() as int;
    if k == 0 {
        (Ok(false), st, fuel)
    } else {
        let rest = st.kids.drop_last();
        let (rb, last, f2) = path_back_off_model(st.kids[k - 1], a.nodes@[k - 1], text, fuel);
        match rb {
            Err(c) => (Err(c), st, f2),
            Ok(true) => (Ok(true), AndStepView { span: (st.span.0, pv_end(last)), kids: rest.push(last) }, f2),
            Ok(false) => if a.limits.spec_check(k - 1) != 0 {
                (Ok(false), AndStepView { span: st.span, kids: rest }, f2)
            } else if f2 < fuel {
                and_back_off_loop(a, AndStepView { span: st.span, kids: rest }, text, f2)
            } else {
                (Err(0), st, f2)
            },
        }
    }
}

/// Backing off the walk **p** of **n**: the Empty walk does not back off; a leaf walk backs off
/// as **leaf_back_off_model** says; an AND or OR walk as **and_path_back_off_model** and
/// **or_path_back_off_model** say.
pub open spec fn path_back_off_model(p: PathView, n: Node, text: Seq<char>, fuel: nat)
    -> (Result<bool, usize>, PathView, nat)
    decreases fuel, 0nat,
{
    if p is Empty {
        (Ok(false), p, fuel)
    } else if fuel == 0 {
        (Err(202), p, 0)
    } else {
        let f = (fuel - 1) as nat;
        match (p, node_target(n)) {
            (PathView::Leaf(ms), _) => {
                let (b, ms2) = leaf_back_off_model(node_target(n), ms, text);
                (Ok(b), PathView::Leaf(ms2), f)
            },
            (PathView::And(s), Node::And(a)) => {
                let (r, s2, f2) = and_path_back_off_model(s, a, text, f);
                (r, PathView::And(s2), f2)
            },
            (PathView::Or(s), Node::Or(o)) => {
                let (r, s2, f2) = or_path_back_off_model(s, o, text, f);
                (r, PathView::Or(s2), f2)
            },
            _ => (Err(0), p, f),
        }
    }
}

/// Backing off an AND walk: its last step backs off; failing that, a lazy walk takes one more
/// step if its limits admit one, and a greedy walk drops its last step and may back off if it is
/// still within its limits.
pub open spec fn and_path_back_off_model(s: Seq<AndStepView>, a: AndNode, text: Seq<char>, fuel: nat)
    -> (Result<bool, usize>, Seq<AndStepView>, nat)
    decreases fuel, 0nat,
{
    if fuel == 0 {
        (Err(202), s, 0)
    } else {
        let f = (fuel - 1) as nat;
        let len = s.len() as int;
        let (rb, last, f2) = and_step_back_off_model(a, s.last(), text, f);
        let mid = s.drop_last().push(last);
        match rb {
            Err(c) => (Err(c), s, f2),
            Ok(true) => (Ok(true), mid, f2),
            Ok(false) => if a.limits.spec_lazy() {
                if len >= a.limits.min && len <= a.limits.max && f2 < fuel {
                    let (r3, f3) = and_step_model(a, last, text, f2);
                    match r3 {
                        Err(c) => (Err(c), s, f3),
                        Ok(Some(ns)) => (Ok(true), mid.push(ns), f3),
                        Ok(None) => (Ok(false), mid, f3),
                    }
                } else {
                    (Ok(false), mid, f2)
                }
            } else {
                (Ok(a.limits.spec_check(len - 1) == 0), s.drop_last(), f2)
            },
        }
    }
}

/// The first walk of the OR node **o** from **pos**, as for an AND node.
pub open spec fn or_walk_model(o: OrNode, pos: int, text: Seq<char>, fuel: nat) -> (Result<PathView, usize>, nat)
    decreases fuel, 0nat,
{
    if fuel == 0 {
        (Err(202), 0)
    } else {
        or_walk_loop(o, seq![OrStepView { span: (pos, pos), which: 0, kid: PathView::Empty }],
            o.limits.spec_initial_walk_limit() as int, text, (fuel - 1) as nat)
    }
}

/// The rest of an OR walk whose steps so far are **steps**.
pub open spec fn or_walk_loop(o: OrNode, steps: Seq<OrStepView>, limit: int, text: Seq<char>, fuel: nat)
    -> (Result<PathView, usize>, nat)
    decreases fuel, 1nat,
{
    let len = steps.len() as int;
    if len == 0 || len > limit {
        (Ok(PathView::Or(steps)), fuel)
    } else {
        let (r, f2) = or_step_model(o, steps[len - 1], text, fuel);
        match r {
            Err(c) => (Err(c), f2),
            Ok(None) => (Ok(PathView::Or(steps)), f2),
            Ok(Some(st)) => if len % 30 == 29 && loop_stops(st.span, o.limits.max) {
                (Err(200), f2)
            } else if f2 < fuel {
                or_walk_loop(o, steps.push(st), limit, text, f2)
            } else {
                (Err(0), f2)
            },
        }
    }
}

/// One more step of the OR node **o** after the step **prev**: the first alternative, in order,
/// whose walk from the end of **prev** is within its limits.
pub open spec fn or_step_model(o: OrNode, prev: OrStepView, text: Seq<char>, fuel: nat)
    -> (Result<Option<OrStepView>, usize>, nat)
    decreases fuel, 0nat,
{
    if fuel == 0 {
        (Err(202), 0)
    } else {
        or_step_loop(o, prev.span.1, 0, text, (fuel - 1) as nat)
    }
}

/// The rest of an OR step from position **pos**, trying the alternatives from **which** on.
pub open spec fn or_step_loop(o: OrNode, pos: int, which: int, text: Seq<char>, fuel: nat)
    -> (Result<Option<OrStepView>, usize>, nat)
    decreases fuel, 1nat,
{
    if which < 0 || which >= o.nodes.len() {
        (Ok(None), fuel)
    } else {
        let (r, f2) = walk_model(o.nodes@[which], pos, text, fuel);
        match r {
            Err(c) => (Err(c), f2),
            Ok(cp) => if within(o.nodes@[which], pv_len(cp)) {
                (Ok(Some(OrStepView { span: (pos, pv_end(cp)), which, kid: cp })), f2)
            } else if f2 < fuel {
                or_step_loop(o, pos, which + 1, text, f2)
            } else {
                (Err(0), f2)
            },
        }
    }
}

/// Backing off an OR step: the zero step and a step whose alternatives have run out do not back
/// off; otherwise the walk of its alternative backs off, or else the next alternatives are
/// walked in turn until one is within its limits.
pub open spec fn or_step_back_off_model(o: OrNode, st: OrStepView, text: Seq<char>, fuel: nat)
    -> (Result<bool, usize>, OrStepView, nat)
    decreases fuel, 0nat,
{
    if st.kid is Empty || st.which < 0 || st.which >= o.nodes.len() {
        (Ok(false), st, fuel)
    } else if fuel == 0 {
        (Err(202), st, 0)
    } else {
        or_back_off_loop(o, st, text, (fuel - 1) as nat)
    }
}

/// An OR step at the end of backing off: it matches up to the end of its alternative's walk.
pub open spec fn or_finish(st: OrStepView) -> OrStepView {
    if pv_len(st.kid) != 0 {
        OrStepView { span: (st.span.0, pv_end(st.kid)), which: st.which, kid: st.kid }
    } else {
        st
    }
}

/// The rest of backing off an OR step that is now **st**.
pub open spec fn or_back_off_loop(o: OrNode, st: OrStepView, text: Seq<char>, fuel: nat)
    -> (Result<bool, usize>, OrStepView, nat)
    decreases fuel, 1nat,
{
    if st.which < 0 || st.which >= o.nodes.len() {
        (Ok(false), or_finish(st), fuel)
    } else {
        let (rb, kid, f2) = path_back_off_model(st.kid, o.nodes@[st.which], text, fuel);
        match rb {
            Err(c) => (Err(c), st, f2),
            Ok(true) => (Ok(true), or_finish(OrStepView { span: st.span, which: st.which, kid }), f2),
            Ok(false) => {
                let w = st.which + 1;
                let sp = (st.span.0, st.span.0);
                if w >= o.nodes.len() {
                    (Ok(false), or_finish(OrStepView { span: sp, which: w, kid }), f2)
                } else if f2 < fuel {
                    let (r3, f3) = walk_model(o.nodes@[w], st.span.0, text, f2);
                    match r3 {
                        Err(c) => (Err(c), st, f3),
                        Ok(cp) => if within(o.nodes@[w], pv_len(cp)) {
                            (Ok(true), or_finish(OrStepView { span: sp, which: w, kid: cp }), f3)
                        } else if f3 < fuel {
                            or_back_off_loop(o, OrStepView { span: sp, which: w, kid: cp }, text, f3)
                        } else {
                            (Err(0), st, f3)
                        },
                    }
                } else {
                    (Err(0), st, f2)
                }
            },
        }
    }
}

/// Backing off an OR walk, as for an AND walk, the last step being replaced by what backing it
/// off left.
pub open spec fn or_path_back_off_model(s: Seq<OrStepView>, o: OrNode, text: Seq<char>, fuel: nat)
    -> (Result<bool, usize>, Seq<OrStepView>, nat)
    decreases fuel, 0nat,
{
    if fuel == 0 {
        (Err(202), s, 0)
    } else {
        let f = (fuel - 1) as nat;
        let len = s.len() as int;
        let (rb, last, f2) = or_step_back_off_model(o, s.last(), text, f);
        let mid = s.drop_last().push(last);
        match rb {
            Err(c) => (Err(c), s, f2),
            Ok(true) => (Ok(true), mid, f2),
            Ok(false) => if o.limits.spec_lazy() {
                if len >= o.limits.min && len <= o.limits.max && f2 < fuel {
                    let (r3, f3) = or_step_model(o, last, text, f2);
                    match r3 {
                        Err(c) => (Err(c), s, f3),
                        Ok(Some(ns)) => (Ok(true), mid.push(ns), f3),
                        Ok(None) => (Ok(false), mid, f3),
                    }
                } else {
                    (Ok(false), mid, f2)
                }
            } else {
                (Ok(o.limits.spec_check(len - 1) == 0), s.drop_last(), f2)
            },
        }
    }
}

/// A definition reference is walked as the definition it holds: its walk is that of the
/// definition's node, one unit of the budget later.
pub proof fn law_definition_walks_as_its_node(d: crate::tree::DefNode, pos: int, text: Seq<char>, fuel: nat)
    ensures
        walk_model(Node::Def(d), pos, text, fuel + 1) == walk_model(*d.node, pos, text, fuel),
{
}

/// The first walk of the tree **tree** from **pos**.
pub open spec fn tree_walk_model(tree: Node, pos: int, text: Seq<char>, fuel: nat) -> (Result<PathView, usize>, nat) {
    match tree {
        Node::And(a) => and_walk_model(a, pos, text, fuel),
        _ => walk_model(tree, pos, text, fuel),
    }
}

/// The search from position **pos** on: the tree is walked from each position in turn, the
/// budget left by one walk going to the next; the first walk that is within the tree's limits is
/// the match. There is none if no position up to the end of the text gives one (if the tree is
/// anchored, only **pos** itself is tried).
pub open spec fn search_from(tree: Node, text: Seq<char>, pos: int, anchored: bool, fuel: nat)
    -> Result<Option<PathView>, usize>
    decreases text.len() - pos,
{
    if pos < 0 || pos > text.len() {
        Ok(None)
    } else {
        let (r, f2) = tree_walk_model(tree, pos, text, fuel);
        match r {
            Err(c) => Err(c),
            Ok(p) => if within(tree, pv_len(p)) {
                Ok(Some(p))
            } else if anchored || pos >= text.len() {
                Ok(None)
            } else {
                search_from(tree, text, pos + 1, anchored, f2)
            },
        }
    }
}

/// The search for the tree in **text** from **start**, with the full step budget: a tree anchored
/// to the start of the text matches only at position 0.
pub open spec fn walk_tree_model(tree: Node, text: Seq<char>, start: int) -> Result<Option<PathView>, usize> {
    let anchored = tree is And && tree->And_0.anchor;
    if anchored && start > 0 {
        Ok(None)
    } else {
        search_from(tree, text, start, anchored, SEARCH_BUDGET as nat)
    }
}

/// The successive matches from **from** on, after the matches **found**: each search starts
/// where the match before ended, or one character further on after a match of no characters,
/// until **max** matches are found (no limit if **max** is 0), no further match is found, or the
/// text ends. (A search never gives a match before the place it starts from.)
pub open spec fn search_all_model(tree: Node, text: Seq<char>, from: int, max: int, found: Seq<PathView>)
    -> Result<Seq<PathView>, usize>
    decreases text.len() + 1 - from,
{
    if from < 0 || from > text.len() || (max > 0 && found.len() == max) {
        Ok(found)
    } else {
        match walk_tree_model(tree, text, from) {
            Err(c) => Err(c),
            Ok(None) => Ok(found),
            Ok(Some(p)) => if from <= pv_start(p) <= pv_end(p) {
                let next = if pv_start(p) < pv_end(p) { pv_end(p) } else { pv_end(p) + 1 };
                if next <= text.len() {
                    search_all_model(tree, text, next, max, found.push(p))
                } else {
                    Ok(found.push(p))
                }
            } else {
                Ok(found)
            },
        }
    }
}

/// Whether the result of a search agrees with the stated one.
pub open spec fn search_agrees(r: Result<Option<Path>, Error>, m: Result<Option<PathView>, usize>) -> bool {
    match (r, m) {
        (Ok(Some(p)), Ok(Some(v))) => path_view(p) == v,
        (Ok(None), Ok(None)) => true,
        (Err(e), Err(c)) => e.code == c,
        _ => false,
    }
}

/// Whether the result of finding all the matches agrees with the stated one.
pub open spec fn search_all_agrees(r: Result<Vec<Path>, Error>, m: Result<Seq<PathView>, usize>) -> bool {
    match (r, m) {
        (Ok(ps), Ok(vs)) => kids_view(ps@) == vs,
        (Err(e), Err(c)) => e.code == c,
        _ => false,
    }
}

/// Whether the result of a walk agrees with the stated one: the same walk, or an error with the
/// same code.
pub open spec fn walk_agrees(r: Result<Path, Error>, m: Result<PathView, usize>) -> bool {
    match (r, m) {
        (Ok(p), Ok(v)) => path_view(p) == v,
        (Err(e), Err(c)) => e.code == c,
        _ => false,
    }
}

/// Whether the result of taking an AND step agrees with the stated one.
pub open spec fn and_step_agrees(r: Result<Option<AndStep>, Error>, m: Result<Option<AndStepView>, usize>) -> bool {
    match (r, m) {
        (Ok(Some(st)), Ok(Some(v))) => and_view(st) == v,
        (Ok(None), Ok(None)) => true,
        (Err(e), Err(c)) => e.code == c,
        _ => false,
    }
}

/// Whether the result of taking an OR step agrees with the stated one.
pub open spec fn or_step_agrees(r: Result<Option<OrStep>, Error>, m: Result<Option<OrStepView>, usize>) -> bool {
    match (r, m) {
        (Ok(Some(st)), Ok(Some(v))) => or_view(st) == v,
        (Ok(None), Ok(None)) => true,
        (Err(e), Err(c)) => e.code == c,
        _ => false,
    }
}

/// Whether the result of backing off agrees with the stated one: the same answer and the same
/// walk (or step) after, or an error with the same code.
pub open spec fn back_off_agrees<T>(r: Result<bool, Error>, after: T, m: (Result<bool, usize>, T, nat)) -> bool {
    match (r, m.0) {
        (Ok(b), Ok(c)) => b == c && after == m.1,
        (Err(e), Err(c)) => e.code == c,
        _ => false,
    }
}

/// The views of the steps of an AND walk, step by step.
pub proof fn lemma_and_views(s: Seq<AndStep>)
    ensures
        and_views(s).len() == s.len(),
        forall|i: int| 0 <= i < s.len() ==> #[trigger] and_views(s)[i] == and_view(s[i]),
    decreases s.len(),
{
    if s.len() > 0 {
        lemma_and_views(s.drop_last());
        assert forall|i: int| 0 <= i < s.len() implies #[trigger] and_views(s)[i] == and_view(s[i]) by {
            if i < s.len() - 1 {
                assert(s.drop_last()[i] == s[i]);
            }
        }
    }
}

/// The views of the steps of an OR walk, step by step.
pub proof fn lemma_or_views(s: Seq<OrStep>)
    ensures
        or_views(s).len() == s.len(),
        forall|i: int| 0 <= i < s.len() ==> #[trigger] or_views(s)[i] == or_view(s[i]),
    decreases s.len(),
{
    if s.len() > 0 {
        lemma_or_views(s.drop_last());
        assert forall|i: int| 0 <= i < s.len() implies #[trigger] or_views(s)[i] == or_view(s[i]) by {
            if i < s.len() - 1 {
                assert(s.drop_last()[i] == s[i]);
            }
        }
    }
}

/// The views of a list of walks, walk by walk.
pub proof fn lemma_kids_view(ps: Seq<Path>)
    ensures
        kids_view(ps).len() == ps.len(),
        forall|i: int| 0 <= i < ps.len() ==> #[trigger] kids_view(ps)[i] == path_view(ps[i]),
    decreases ps.len(),
{
    if ps.len() > 0 {
        lemma_kids_view(ps.drop_last());
        assert forall|i: int| 0 <= i < ps.len() implies #[trigger] kids_view(ps)[i] == path_view(ps[i]) by {
            if i < ps.len() - 1 {
                assert(ps.drop_last()[i] == ps[i]);
            }
        }
    }
}

/// The views of AND steps with one added.
pub proof fn lemma_and_views_push(s: Seq<AndStep>, x: AndStep)
    ensures
        and_views(s.push(x)) == and_views(s).push(and_view(x)),
{
    assert(s.push(x).drop_last() =~= s);
}

/// The views of OR steps with one added.
pub proof fn lemma_or_views_push(s: Seq<OrStep>, x: OrStep)
    ensures
        or_views(s.push(x)) == or_views(s).push(or_view(x)),
{
    assert(s.push(x).drop_last() =~= s);
}

/// The views of walks with one added.
pub proof fn lemma_kids_view_push(s: Seq<Path>, x: Path)
    ensures
        kids_view(s.push(x)) == kids_view(s).push(path_view(x)),
{
    assert(s.push(x).drop_last() =~= s);
}

/// The views of a single AND step, and of no walks.
pub proof fn lemma_and_views_one(x: AndStep)
    ensures
        and_views(seq![x]) == seq![and_view(x)],
        kids_view(Seq::<Path>::empty()) == Seq::<PathView>::empty(),
{
    assert(seq![x].drop_last() =~= Seq::<AndStep>::empty());
    assert(seq![x].last() == x);
    assert(and_views(Seq::<AndStep>::empty()) =~= Seq::<AndStepView>::empty());
    assert(Seq::<AndStepView>::empty().push(and_view(x)) =~= seq![and_view(x)]);
}

/// The views of a single OR step.
pub proof fn lemma_or_views_one(y: OrStep)
    ensures
        or_views(seq![y]) == seq![or_view(y)],
{
    assert(seq![y].drop_last() =~= Seq::<OrStep>::empty());
    assert(seq![y].last() == y);
    assert(or_views(Seq::<OrStep>::empty()) =~= Seq::<OrStepView>::empty());
    assert(Seq::<OrStepView>::empty().push(or_view(y)) =~= seq![or_view(y)]);
}

/// Views of lists with their last element taken off.
pub proof fn lemma_views_drop_last()
    ensures
        forall|s: Seq<AndStep>| s.len() > 0 ==> #[trigger] and_views(s.drop_last()) == and_views(s).drop_last(),
        forall|s: Seq<OrStep>| s.len() > 0 ==> #[trigger] or_views(s.drop_last()) == or_views(s).drop_last(),
        forall|s: Seq<Path>| s.len() > 0 ==> #[trigger] kids_view(s.drop_last()) == kids_view(s).drop_last(),
{
    assert forall|s: Seq<AndStep>| s.len() > 0 implies #[trigger] and_views(s.drop_last()) == and_views(s).drop_last() by {
        assert(and_views(s).drop_last() =~= and_views(s.drop_last()));
    }
    assert forall|s: Seq<OrStep>| s.len() > 0 implies #[trigger] or_views(s.drop_last()) == or_views(s).drop_last() by {
        assert(or_views(s).drop_last() =~= or_views(s.drop_last()));
    }
    assert forall|s: Seq<Path>| s.len() > 0 implies #[trigger] kids_view(s.drop_last()) == kids_view(s).drop_last() by {
        assert(kids_view(s).drop_last() =~= kids_view(s.drop_last()));
    }
}

/// The view of a walk has as many steps as the walk, and ends where it ends.
pub proof fn lemma_path_view(p: Path)
    ensures
        pv_len(path_view(p)) == path_len(p),
        path_len(p) >= 1 ==> pv_end(path_view(p)) == path_end(p),
        path_len(p) >= 1 ==> pv_start(path_view(p)) == path_start(p),
        (p is Empty) == (path_view(p) is Empty),
{
    match p {
        Path::And(s) => {
            lemma_and_views(s@);
        },
        Path::Or(s) => {
            lemma_or_views(s@);
        },
        _ => {},
    }
}

/// Where a search starts again after the match **p**: where **p** ended, or one character
/// further on when **p** matched no characters.
pub open spec fn resume_after(p: PathView) -> int {
    if pv_start(p) < pv_end(p) { pv_end(p) } else { pv_end(p) + 1 }
}

/// A single search from **f** (a place in the text) finds no match there or after it.
pub open spec fn none_from(tree: Node, text: Seq<char>, f: int) -> bool {
    0 <= f <= text.len() ==> !(walk_tree_model(tree, text, f) matches Ok(Some(q)) && f <= pv_start(q) && pv_start(q) <= pv_end(q))
}

/// The matches found from **from** on, after the matches **found**, extend them, each is what a
/// single search gives from where the one before it leaves off, and unless **max** of them were
/// found, a search from where the last leaves off finds nothing more.
proof fn lemma_search_all_steps(tree: Node, text: Seq<char>, from: int, max: int, found: Seq<PathView>)
    requires
        max > 0 ==> found.len() <= max,
    ensures
        search_all_model(tree, text, from, max, found) matches Ok(ps) ==> {
            &&& ps.len() >= found.len()
            &&& ps.take(found.len() as int) == found
            &&& max > 0 ==> ps.len() <= max
            &&& forall|i: int| found.len() <= i < ps.len() ==> walk_tree_model(tree, text,
                if i == found.len() { from } else { resume_after(ps[i - 1]) }) == Ok::<Option<PathView>, usize>(Some(#[trigger] ps[i]))
            &&& (max == 0 || ps.len() < max) ==> none_from(tree, text, if ps.len() == found.len() { from } else { resume_after(ps.last()) })
        },
    decreases text.len() + 1 - from,
{
    if from < 0 || from > text.len() || (max > 0 && found.len() == max) {
        assert(found.take(found.len() as int) =~= found);
    } else {
        match walk_tree_model(tree, text, from) {
            Ok(Some(p)) => if from <= pv_start(p) <= pv_end(p) {
                let next = resume_after(p);
                let f2 = found.push(p);
                if next <= text.len() {
                    lemma_search_all_steps(tree, text, next, max, f2);
                    if let Ok(ps) = search_all_model(tree, text, from, max, found) {
                        assert(ps.take(f2.len() as int) == f2);
                        assert(ps[f2.len() - 1] == f2[f2.len() - 1]);
                        assert(ps.take(found.len() as int) =~= f2.take(found.len() as int));
                        assert(f2.take(found.len() as int) =~= found);
                        assert(ps[found.len() as int] == f2[found.len() as int]);
                        assert forall|i: int| found.len() <= i < ps.len() implies walk_tree_model(tree, text,
                            if i == found.len() { from } else { resume_after(ps[i - 1]) }) == Ok::<Option<PathView>, usize>(Some(#[trigger] ps[i])) by {
                            if i == found.len() + 1 {
                                assert(ps[i - 1] == f2[i - 1]);
                            }
                        }
                    }
                } else {
                    assert(f2.take(found.len() as int) =~= found);
                }
            } else {
                assert(found.take(found.len() as int) =~= found);
            },
            _ => {
                assert(found.take(found.len() as int) =~= found);
            },
        }
    }
}

/// Finding all the matches is searching again and again: the first match is what a single
/// search from **start** gives; after a match that ends at **e** having matched characters, the
/// next is what a single search from **e** gives (so no match starting at **e** is passed
/// over), and after a match of no characters at **e**, what a single search from **e + 1**
/// gives. No more than **max** matches are found when **max** is not 0, and unless **max** were
/// found, a search from where the last match leaves off finds nothing more.
pub proof fn law_search_all_successive(tree: Node, text: Seq<char>, start: int, max: int)
    ensures
        search_all_model(tree, text, start, max, Seq::empty()) matches Ok(ps) ==> {
            &&& ps.len() > 0 ==> walk_tree_model(tree, text, start) == Ok::<Option<PathView>, usize>(Some(ps[0]))
            &&& forall|i: int| 0 < i < ps.len() && pv_start(ps[i - 1]) < pv_end(ps[i - 1])
                ==> walk_tree_model(tree, text, pv_end(ps[i - 1])) == Ok::<Option<PathView>, usize>(Some(#[trigger] ps[i]))
            &&& forall|i: int| 0 < i < ps.len() && pv_start(ps[i - 1]) >= pv_end(ps[i - 1])
                ==> walk_tree_model(tree, text, pv_end(ps[i - 1]) + 1) == Ok::<Option<PathView>, usize>(Some(#[trigger] ps[i]))
            &&& max > 0 ==> ps.len() <= max
            &&& (max == 0 || ps.len() < max) && ps.len() == 0 ==> none_from(tree, text, start)
            &&& (max == 0 || ps.len() < max) && ps.len() > 0 && pv_start(ps.last()) < pv_end(ps.last())
                ==> none_from(tree, text, pv_end(ps.last()))
            &&& (max == 0 || ps.len() < max) && ps.len() > 0 && pv_start(ps.last()) >= pv_end(ps.last())
                ==> none_from(tree, text, pv_end(ps.last()) + 1)
        },
{
    lemma_search_all_steps(tree, text, start, max, Seq::empty());
    if let Ok(ps) = search_all_model(tree, text, start, max, Seq::empty()) {
        assert forall|i: int| 0 < i < ps.len() && pv_start(ps[i - 1]) < pv_end(ps[i - 1])
            implies walk_tree_model(tree, text, pv_end(ps[i - 1])) == Ok::<Option<PathView>, usize>(Some(#[trigger] ps[i])) by {
            assert(resume_after(ps[i - 1]) == pv_end(ps[i - 1]));
        }
        assert forall|i: int| 0 < i < ps.len() && pv_start(ps[i - 1]) >= pv_end(ps[i - 1])
            implies walk_tree_model(tree, text, pv_end(ps[i - 1]) + 1) == Ok::<Option<PathView>, usize>(Some(#[trigger] ps[i])) by {
            assert(resume_after(ps[i - 1]) == pv_end(ps[i - 1]) + 1);
        }
    }
}

} // verus!
