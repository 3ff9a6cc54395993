//! Snippet definitions for the alternative parser: the table of definitions, the texts of the
//! definition files that **use(...)** reads, and the substitution of definitions into the tree.
use vstd::prelude::*;

use crate::error::Error;
use crate::limits::Limits;
use crate::tree::{
    copy_keeps, copy_chars, copy_name, lemma_and_children, lemma_or_children, node_limits, node_named,
    node_resolved, node_unresolved, same_but_limits, same_but_name, DefNode, Node, def_free,
    lemma_all_def_free, lemma_shapes_pointwise, lemma_shapes, shapes, shape, Shape, copy_shape, shape_with_limits, shape_with_name,
};

verus! {

/// The views of a list of character vectors.
pub open spec fn views(v: Seq<Vec<char>>) -> Seq<Seq<char>> {
    Seq::new(v.len(), |i: int| v[i]@)
}

/// **Defs** holds snippet definitions as subtrees which can be inserted into the parse tree when called for.
/// They can be defined inline in REs or loaded from an external library. A name is defined at most
/// once: a new definition replaces the old one.
pub struct Defs {
    names: Vec<Vec<char>>,
    nodes: Vec<Node>,
}

impl Defs {
    /// The table is consistent: one node per name, no name twice, every node as the parser built it.
    pub closed spec fn wf(&self) -> bool {
        &&& self.names.len() == self.nodes.len()
        &&& views(self.names@).no_duplicates()
        &&& forall|i: int| 0 <= i < self.nodes.len() ==> #[trigger] node_unresolved(self.nodes@[i])
    }

    /// The defined names.
    pub closed spec fn keys(&self) -> Seq<Seq<char>> {
        views(self.names@)
    }

    /// The definitions, by name.
    pub closed spec fn entries(&self) -> Map<Seq<char>, Node> {
        Map::new(
            |k: Seq<char>| self.keys().contains(k),
            |k: Seq<char>| self.nodes@[choose|i: int| 0 <= i < self.names.len() && self.keys()[i] == k],
        )
    }

    /// In a consistent table the definition of the i-th name is the i-th node.
    proof fn lemma_entry(&self, i: int)
        requires
            self.wf(),
            0 <= i < self.names.len(),
        ensures
            self.entries().dom().contains(self.keys()[i]),
            self.entries()[self.keys()[i]] == self.nodes@[i],
    {
        let k = self.keys()[i];
        assert(self.keys().contains(k));
        let j = choose|j: int| 0 <= j < self.names.len() && self.keys()[j] == k;
        assert(self.keys()[j] == k);
        assert(j == i);
    }

    /// In a consistent table there are as many names as definitions.
    pub proof fn lemma_keys_len(&self)
        requires
            self.wf(),
        ensures
            self.keys().len() == def_shapes(self.entries()).dom().len(),
    {
        self.keys().unique_seq_to_set();
        assert(def_shapes(self.entries()).dom() =~= self.keys().to_set());
    }

    /// An empty table.
    pub fn new() -> (d: Defs)
        ensures
            d.wf(),
            d.keys() == Seq::<Seq<char>>::empty(),
            d.entries() == Map::<Seq<char>, Node>::empty(),
    {
        let d = Defs { names: Vec::new(), nodes: Vec::new() };
        proof {
            assert(d.keys() =~= Seq::<Seq<char>>::empty());
            assert(d.entries() =~= Map::<Seq<char>, Node>::empty());
        }
        d
    }

    /// The number of definitions.
    pub fn len(&self) -> (n: usize)
        requires
            self.wf(),
        ensures
            n == self.keys().len(),
    {
        self.names.len()
    }

    /// The index of **name** in the table.
    fn find(&self, name: &Vec<char>) -> (r: Option<usize>)
        requires
            self.wf(),
        ensures
            r is Some <==> self.keys().contains(name@),
            r matches Some(i) ==> i < self.names.len() && self.keys()[i as int] == name@,
    {
        let mut i: usize = 0;
        while i < self.names.len()
            invariant
                i <= self.names.len(),
                forall|k: int| 0 <= k < i ==> self.keys()[k] != name@,
            decreases self.names.len() - i,
        {
            if chars_eq(&self.names[i], name) {
                proof {
                    assert(self.keys()[i as int] == name@);
                }
                return Some(i);
            }
            i = i + 1;
        }
        proof {
            if self.keys().contains(name@) {
                let k = choose|k: int| 0 <= k < self.keys().len() && self.keys()[k] == name@;
                assert(self.keys()[k] == name@);
            }
        }
        None
    }

    /// Fetches a copy of an already-defined snippet to be inserted into the parse tree
    pub fn get(&self, name: &Vec<char>) -> (r: Option<Node>)
        requires
            self.wf(),
        ensures
            r is Some <==> self.entries().dom().contains(name@),
            r matches Some(n) ==> node_unresolved(n) && copy_keeps(self.entries()[name@], n),
            r matches Some(n) ==> shape(n) == copy_shape(shape(self.entries()[name@])),
    {
        match self.find(name) {
            Some(i) => {
                proof {
                    self.lemma_entry(i as int);
                }
                Some(self.nodes[i].copy())
            },
            None => None,
        }
    }

    /// Stores a definition, replacing any earlier one with the same name.
    pub fn insert(&mut self, name: Vec<char>, node: Node)
        requires
            old(self).wf(),
            node_unresolved(node),
        ensures
            final(self).wf(),
            final(self).keys().contains(name@),
            forall|k: Seq<char>| #[trigger] final(self).keys().contains(k) <==> (old(self).keys().contains(k) || k == name@),
            final(self).keys().len() == old(self).keys().len() + (if old(self).keys().contains(name@) { 0int } else { 1int }),
            final(self).entries() == old(self).entries().insert(name@, node),
    {
        let ghost name_v = name@;
        let ghost node_v = node;
        match self.find(&name) {
            Some(i) => {
                self.nodes.set(i, node);
                proof {
                    assert forall|k: int| 0 <= k < self.nodes.len() implies #[trigger] node_unresolved(self.nodes@[k]) by {
                        if k != i {
                            assert(self.nodes@[k] == old(self).nodes@[k]);
                        }
                    }
                    assert(self.keys() == old(self).keys());
                    assert(self.wf());
                    assert forall|k: Seq<char>| #[trigger] self.entries().dom().contains(k) == old(self).entries().insert(name_v, node_v).dom().contains(k) by {}
                    assert forall|k: Seq<char>| #[trigger] self.entries().dom().contains(k) implies self.entries()[k] == old(self).entries().insert(name_v, node_v)[k] by {
                        let j = choose|j: int| 0 <= j < self.names.len() && self.keys()[j] == k;
                        self.lemma_entry(j);
                        if k == name_v {
                            assert(j == i);
                        } else {
                            old(self).lemma_entry(j);
                        }
                    }
                    assert(self.entries() =~= old(self).entries().insert(name_v, node_v));
                }
            },
            None => {
                let ghost old_keys = self.keys();
                self.names.push(name);
                self.nodes.push(node);
                proof {
                    assert(self.keys() =~= old_keys.push(name@));
                    assert forall|a: int, b: int| 0 <= a < b < self.keys().len() implies self.keys()[a] != self.keys()[b] by {
                        if b == old_keys.len() {
                            assert(old_keys.contains(old_keys[a]));
                        }
                    }
                    assert forall|k: int| 0 <= k < self.nodes.len() implies #[trigger] node_unresolved(self.nodes@[k]) by {
                        if k < old(self).nodes.len() {
                            assert(self.nodes@[k] == old(self).nodes@[k]);
                        }
                    }
                    assert forall|k: Seq<char>| #[trigger] self.keys().contains(k) <==> (old_keys.contains(k) || k == name@) by {
                        if self.keys().contains(k) {
                            let j = choose|j: int| 0 <= j < self.keys().len() && self.keys()[j] == k;
                            if j < old_keys.len() {
                                assert(old_keys[j] == k);
                            }
                        }
                        if old_keys.contains(k) {
                            let j = choose|j: int| 0 <= j < old_keys.len() && old_keys[j] == k;
                            assert(self.keys()[j] == k);
                        }
                        if k == name_v {
                            assert(self.keys()[old_keys.len() as int] == k);
                        }
                    }
                    assert(self.wf());
                    assert forall|k: Seq<char>| #[trigger] self.entries().dom().contains(k) == old(self).entries().insert(name_v, node_v).dom().contains(k) by {}
                    assert forall|k: Seq<char>| #[trigger] self.entries().dom().contains(k) implies self.entries()[k] == old(self).entries().insert(name_v, node_v)[k] by {
                        let j = choose|j: int| 0 <= j < self.names.len() && self.keys()[j] == k;
                        self.lemma_entry(j);
                        if k != name_v {
                            assert(j < old_keys.len());
                            assert(old(self).keys()[j] == k);
                            old(self).lemma_entry(j);
                            assert(self.nodes@[j] == old(self).nodes@[j]);
                        } else {
                            assert(!old_keys.contains(name_v));
                            assert(j == old_keys.len());
                        }
                    }
                    assert(self.entries() =~= old(self).entries().insert(name_v, node_v));
                }
            },
        }
    }
}

/// Whether two character vectors hold the same characters.
pub fn chars_eq(a: &Vec<char>, b: &Vec<char>) -> (r: bool)
    ensures
        r == (a@ == b@),
{
    if a.len() != b.len() {
        return false;
    }
    let mut i: usize = 0;
    while i < a.len()
        invariant
            a.len() == b.len(),
            i <= a.len(),
            forall|k: int| 0 <= k < i ==> a@[k] == b@[k],
        decreases a.len() - i,
    {
        if a[i] != b[i] {
            return false;
        }
        i = i + 1;
    }
    proof {
        assert(a@ =~= b@);
    }
    true
}

/// Whether **v** holds a vector with the characters **x**.
pub fn contains_chars(v: &Vec<Vec<char>>, x: &Vec<char>) -> (r: bool)
    ensures
        r == views(v@).contains(x@),
{
    let mut i: usize = 0;
    while i < v.len()
        invariant
            i <= v.len(),
            forall|k: int| 0 <= k < i ==> views(v@)[k] != x@,
        decreases v.len() - i,
    {
        if chars_eq(&v[i], x) {
            proof {
                assert(views(v@)[i as int] == x@);
            }
            return true;
        }
        i = i + 1;
    }
    false
}

/// The view of a file's contents or of the message of the error met reading it.
pub open spec fn content_view(c: Result<Vec<char>, Vec<char>>) -> Result<Seq<char>, Seq<char>> {
    match c {
        Ok(t) => Ok(t@),
        Err(m) => Err(m@),
    }
}

/// The view of what reading a file gave: its text or the message of the error met.
pub open spec fn read_view(c: Result<String, String>) -> Result<Seq<char>, Seq<char>> {
    match c {
        Ok(t) => Ok(t@),
        Err(m) => Err(m@),
    }
}

/// The texts of the definition files that **use(...)** statements name: for each path either its
/// contents or the message of the error met reading it. Reading files is left to the caller; a
/// parse that meets a path not in the table stops with error 115, whose message is the path.
pub struct Sources {
    paths: Vec<Vec<char>>,
    contents: Vec<Result<Vec<char>, Vec<char>>>,
}

impl Sources {
    /// One entry per path, no path twice.
    pub closed spec fn wf(&self) -> bool {
        &&& self.paths.len() == self.contents.len()
        &&& views(self.paths@).no_duplicates()
    }

    /// The paths in the table.
    pub closed spec fn paths(&self) -> Seq<Seq<char>> {
        views(self.paths@)
    }

    /// The entry for **path**: None if it is not in the table, otherwise the file's contents or
    /// the message of the error met reading it.
    pub closed spec fn entry(&self, path: Seq<char>) -> Option<Result<Seq<char>, Seq<char>>> {
        if self.paths().contains(path) {
            Some(content_view(self.contents@[choose|i: int| 0 <= i < self.paths.len() && self.paths()[i] == path]))
        } else {
            None
        }
    }

    /// A path has an entry exactly when it is in the table.
    pub proof fn lemma_entry(&self, path: Seq<char>)
        ensures
            self.entry(path) is Some <==> self.paths().contains(path),
    {
    }

    /// An empty table.
    pub fn new() -> (s: Sources)
        ensures
            s.wf(),
            s.paths() == Seq::<Seq<char>>::empty(),
    {
        let s = Sources { paths: Vec::new(), contents: Vec::new() };
        proof {
            assert(s.paths() =~= Seq::<Seq<char>>::empty());
        }
        s
    }

    /// Records the contents of the file at **path** (or the message of the error met reading it).
    /// A path already in the table keeps its first entry.
    pub fn insert(&mut self, path: &str, content: Result<String, String>)
        requires
            old(self).wf(),
        ensures
            final(self).wf(),
            final(self).paths().contains(path@),
            forall|k: Seq<char>| #[trigger] final(self).paths().contains(k) <==> (old(self).paths().contains(k) || k == path@),
            !old(self).paths().contains(path@) ==> final(self).entry(path@) == Some(read_view(content)),
    {
        let ghost cv = read_view(content);
        let p = crate::text::str_to_chars(path);
        if contains_chars(&self.paths, &p) {
            return;
        }
        let c = match content {
            Ok(s) => Ok(crate::text::str_to_chars(s.as_str())),
            Err(e) => Err(crate::text::str_to_chars(e.as_str())),
        };
        let ghost old_paths = self.paths();
        proof {
            assert(content_view(c) == cv);
        }
        self.paths.push(p);
        self.contents.push(c);
        proof {
            assert(self.paths() =~= old_paths.push(path@));
            assert forall|a: int, b: int| 0 <= a < b < self.paths().len() implies self.paths()[a] != self.paths()[b] by {
                if b == old_paths.len() {
                    assert(old_paths.contains(old_paths[a]));
                }
            }
            assert forall|k: Seq<char>| #[trigger] self.paths().contains(k) <==> (old_paths.contains(k) || k == path@) by {
                if self.paths().contains(k) {
                    let j = choose|j: int| 0 <= j < self.paths().len() && self.paths()[j] == k;
                    if j < old_paths.len() {
                        assert(old_paths[j] == k);
                    }
                }
                if old_paths.contains(k) {
                    let j = choose|j: int| 0 <= j < old_paths.len() && old_paths[j] == k;
                    assert(self.paths()[j] == k);
                }
                if k == path@ {
                    assert(self.paths()[old_paths.len() as int] == k);
                }
            }
            let n = old_paths.len() as int;
            assert(self.paths()[n] == path@);
            assert(self.paths().contains(path@));
            let j = choose|j: int| 0 <= j < self.paths.len() && self.paths()[j] == path@;
            assert(self.paths()[j] == self.paths()[n]);
            assert(j == n);
        }
    }

    /// The number of files in the table.
    pub fn len(&self) -> (n: usize)
        requires
            self.wf(),
        ensures
            n == self.paths().len(),
    {
        self.paths.len()
    }

    /// The entry for **path**: None if the file has not been read, otherwise its contents or the
    /// message of the error met reading it.
    pub fn lookup(&self, path: &Vec<char>) -> (r: Option<Result<Vec<char>, Vec<char>>>)
        requires
            self.wf(),
        ensures
            r is Some <==> self.paths().contains(path@),
            r matches Some(c) ==> self.entry(path@) == Some(content_view(c)),
            r is None ==> self.entry(path@) is None,
    {
        let mut i: usize = 0;
        while i < self.paths.len()
            invariant
                self.wf(),
                i <= self.paths.len(),
                forall|k: int| 0 <= k < i ==> self.paths()[k] != path@,
            decreases self.paths.len() - i,
        {
            if chars_eq(&self.paths[i], path) {
                proof {
                    assert(self.paths()[i as int] == path@);
                }
                let c = match &self.contents[i] {
                    Ok(t) => Ok(copy_chars(t)),
                    Err(e) => Err(copy_chars(e)),
                };
                proof {
                    assert(self.paths().contains(path@));
                    let j = choose|j: int| 0 <= j < self.paths.len() && self.paths()[j] == path@;
                    assert(self.paths()[j] == self.paths()[i as int]);
                    assert(j == i);
                    assert(content_view(c) == content_view(self.contents@[i as int]));
                }
                return Some(c);
            }
            i = i + 1;
        }
        proof {
            if self.paths().contains(path@) {
                let k = choose|k: int| 0 <= k < self.paths().len() && self.paths()[k] == path@;
                assert(self.paths()[k] == path@);
            }
        }
        None
    }
}

/// The definition files being read, innermost last: none twice, all in the sources table.
pub open spec fn loading_ok(sources: &Sources, loading: Seq<Vec<char>>) -> bool {
    &&& views(loading).no_duplicates()
    &&& forall|i: int| 0 <= i < loading.len() ==> #[trigger] sources.paths().contains(loading[i]@)
}

/// A list of distinct names drawn from a list of distinct names is no longer than it.
pub proof fn lemma_distinct_subset_len(small: Seq<Seq<char>>, big: Seq<Seq<char>>)
    requires
        small.no_duplicates(),
        big.no_duplicates(),
        forall|i: int| 0 <= i < small.len() ==> #[trigger] big.contains(small[i]),
    ensures
        small.len() <= big.len(),
{
    small.unique_seq_to_set();
    big.unique_seq_to_set();
    vstd::seq_lib::seq_to_set_is_finite(big);
    assert(small.to_set().subset_of(big.to_set())) by {
        assert forall|x: Seq<char>| small.to_set().contains(x) implies big.to_set().contains(x) by {
            let i = choose|i: int| 0 <= i < small.len() && small[i] == x;
            assert(big.contains(small[i]));
        }
    }
    vstd::set_lib::lemma_len_subset(small.to_set(), big.to_set());
}

/// The files being read are no more than the files in the table.
pub proof fn lemma_loading_len(sources: &Sources, loading: Seq<Vec<char>>)
    requires
        sources.wf(),
        loading_ok(sources, loading),
    ensures
        loading.len() <= sources.paths().len(),
{
    assert forall|i: int| 0 <= i < views(loading).len() implies #[trigger] sources.paths().contains(views(loading)[i]) by {
        assert(sources.paths().contains(loading[i]@));
    }
    lemma_distinct_subset_len(views(loading), sources.paths());
}

/// Changing only a node's name keeps it as the parser built it.
pub proof fn lemma_same_but_name_unresolved(n: Node, m: Node)
    requires
        same_but_name(n, m),
    ensures
        node_unresolved(n) ==> node_unresolved(m),
        node_resolved(n) ==> node_resolved(m),
{
    match (n, m) {
        (Node::And(a), Node::And(b)) => {
            lemma_and_children(a);
            lemma_and_children(b);
        },
        (Node::Or(a), Node::Or(b)) => {
            lemma_or_children(a);
            lemma_or_children(b);
        },
        _ => {},
    }
}

/// Changing only a node's Limits keeps it as the parser built it.
pub proof fn lemma_same_but_limits_unresolved(n: Node, m: Node)
    requires
        same_but_limits(n, m),
    ensures
        node_unresolved(n) ==> node_unresolved(m),
        node_resolved(n) ==> node_resolved(m),
{
    match (n, m) {
        (Node::And(a), Node::And(b)) => {
            lemma_and_children(a);
            lemma_and_children(b);
        },
        (Node::Or(a), Node::Or(b)) => {
            lemma_or_children(a);
            lemma_or_children(b);
        },
        _ => {},
    }
}


/// The shapes of the definitions in a table.
pub open spec fn def_shapes(m: Map<Seq<char>, Node>) -> Map<Seq<char>, Shape> {
    Map::new(|k: Seq<char>| m.dom().contains(k), |k: Seq<char>| shape(m[k]))
}

/// A table of definition shapes after the definitions **made**, in order (a later definition
/// of a name replaces an earlier one).
pub open spec fn with_defs(m: Map<Seq<char>, Shape>, made: Seq<(Seq<char>, Shape)>) -> Map<Seq<char>, Shape>
    decreases made.len(),
{
    if made.len() == 0 {
        m
    } else {
        with_defs(m, made.drop_last()).insert(made.last().0, made.last().1)
    }
}

/// Making one definition more.
pub proof fn lemma_with_defs_push(m: Map<Seq<char>, Shape>, made: Seq<(Seq<char>, Shape)>, d: (Seq<char>, Shape))
    ensures
        with_defs(m, made.push(d)) == with_defs(m, made).insert(d.0, d.1),
{
    assert(made.push(d).drop_last() =~= made);
}

/// Making the definitions **a**, then those of **b**.
pub proof fn lemma_with_defs_add(m: Map<Seq<char>, Shape>, a: Seq<(Seq<char>, Shape)>, b: Seq<(Seq<char>, Shape)>)
    ensures
        with_defs(m, a + b) == with_defs(with_defs(m, a), b),
    decreases b.len(),
{
    if b.len() == 0 {
        assert(a + b =~= a);
    } else {
        lemma_with_defs_add(m, a, b.drop_last());
        assert((a + b).drop_last() =~= a + b.drop_last());
        assert((a + b).last() == b.last());
    }
}

/// The shapes of a table after one more definition.
pub proof fn lemma_def_shapes_insert(m: Map<Seq<char>, Node>, k: Seq<char>, n: Node)
    ensures
        def_shapes(m.insert(k, n)) == def_shapes(m).insert(k, shape(n)),
{
    assert(def_shapes(m.insert(k, n)) =~= def_shapes(m).insert(k, shape(n)));
}

/// What filling in the definitions gives for a node of shape **sh**, with **dm** the shapes of
/// the definitions, **nk** the number of defined names and **nested** the definitions being
/// filled in (innermost last): each reference gets a copy of its definition, which takes the
/// reference's Limits (unless those are the default single repetition) and name (if it has
/// one), and is filled in the same way. A reference to a name with no definition is error 108,
/// one to a definition being filled in error 109. The children of an AND or OR node are filled
/// in in order; the first error stops the work.
pub open spec fn spec_subst(sh: Shape, dm: Map<Seq<char>, Shape>, nk: nat, nested: Seq<Seq<char>>) -> Result<Shape, usize>
    decreases nk - nested.len(), sh,
{
    match sh {
        Shape::And { nodes, limits, named, anchor, name_outside } => match spec_subst_all(nodes, dm, nk, nested) {
            Ok(ns) => Ok(Shape::And { nodes: ns, limits, named, anchor, name_outside }),
            Err(c) => Err(c),
        },
        Shape::Or { nodes, limits, named, name_outside } => match spec_subst_all(nodes, dm, nk, nested) {
            Ok(ns) => Ok(Shape::Or { nodes: ns, limits, named, name_outside }),
            Err(c) => Err(c),
        },
        Shape::Def { name, node, limits, named, name_outside } => if !dm.dom().contains(name) {
            Err(108)
        } else if nested.contains(name) || nested.len() >= nk {
            Err(109)
        } else {
            let d = copy_shape(dm[name]);
            let d1 = if limits != Limits::spec_default() { shape_with_limits(d, limits) } else { d };
            let d2 = if named is Some { shape_with_name(d1, named, name_outside) } else { d1 };
            match spec_subst(d2, dm, nk, nested.push(name)) {
                Ok(x) => Ok(Shape::Def { name, node: Box::new(x), limits, named, name_outside }),
                Err(c) => Err(c),
            }
        },
        _ => Ok(sh),
    }
}

/// What filling in the definitions gives for the nodes **s**, in order.
pub open spec fn spec_subst_all(s: Seq<Shape>, dm: Map<Seq<char>, Shape>, nk: nat, nested: Seq<Seq<char>>) -> Result<Seq<Shape>, usize>
    decreases nk - nested.len(), s,
{
    if s.len() == 0 {
        Ok(Seq::empty())
    } else {
        match spec_subst(s[0], dm, nk, nested) {
            Err(c) => Err(c),
            Ok(x) => match spec_subst_all(s.drop_first(), dm, nk, nested) {
                Ok(xs) => Ok(seq![x] + xs),
                Err(c) => Err(c),
            },
        }
    }
}

/// Puts the shapes **p** in front of the shapes in **r**.
pub open spec fn prepend_ok(p: Seq<Shape>, r: Result<Seq<Shape>, usize>) -> Result<Seq<Shape>, usize> {
    match r {
        Ok(x) => Ok(p + x),
        Err(c) => Err(c),
    }
}

/// The definitions being substituted, innermost last: none twice, all defined.
pub open spec fn nested_ok(defs: &Defs, nested: Seq<Vec<char>>) -> bool {
    &&& views(nested).no_duplicates()
    &&& forall|i: int| 0 <= i < nested.len() ==> #[trigger] defs.keys().contains(nested[i]@)
}

/// The parts of an AND root that filling in definitions keeps: everything but the children.
pub open spec fn same_and_shell(n: Node, m: Node) -> bool {
    n is And ==> {
        &&& m is And
        &&& m->And_0.limits == n->And_0.limits
        &&& m->And_0.named == n->And_0.named
        &&& m->And_0.anchor == n->And_0.anchor
        &&& m->And_0.name_outside == n->And_0.name_outside
    }
}

impl Node {
    /// Fills in the definitions from the Defs table. Each definition reference gets a copy of its
    /// definition, which takes the reference's Limits (unless those are the default single
    /// repetition) and name (if it has one); the copy is filled in the same way. A definition
    /// that includes itself, directly or through others, is an error, as is a reference to a name
    /// with no definition.
    pub fn substitute_defs(&mut self, nested: &mut Vec<Vec<char>>, defs: &Defs) -> (r: Result<(), Error>)
        requires
            defs.wf(),
            node_unresolved(*old(self)),
            nested_ok(defs, old(nested)@),
        ensures
            r is Ok ==> final(nested)@ == old(nested)@,
            r is Ok ==> node_resolved(*final(self)),
            r is Ok ==> same_and_shell(*old(self), *final(self)),
            r is Err ==> r->Err_0.code == 108 || r->Err_0.code == 109,
            def_free(*old(self)) ==> r is Ok && shape(*final(self)) == shape(*old(self)),
            match spec_subst(shape(*old(self)), def_shapes(defs.entries()), defs.keys().len(), views(old(nested)@)) {
                Ok(x) => r is Ok && shape(*final(self)) == x,
                Err(c) => r matches Err(e) && e.code == c,
            },
        decreases defs.keys().len() - old(nested)@.len(), *old(self),
    {
        proof {
            lemma_distinct_subset_len(views(nested@), defs.keys());
        }
        let ghost orig = *self;
        let ghost dm = def_shapes(defs.entries());
        let ghost nk = defs.keys().len();
        let ghost vn = views(nested@);
        match self {
            Node::And(a) => {
                proof {
                    lemma_and_children(*a);
                    lemma_all_def_free(a.nodes@);
                }
                let ghost a0 = *a;
                let ghost kids = a.nodes@;
                let ghost ks = shapes(kids);
                let ghost mut done: Seq<Shape> = Seq::empty();
                proof {
                    lemma_shapes(kids);
                    assert(ks.skip(0) =~= ks);
                    assert(prepend_ok(done, spec_subst_all(ks, dm, nk, vn)) == spec_subst_all(ks, dm, nk, vn)) by {
                        lemma_prepend_empty(spec_subst_all(ks, dm, nk, vn));
                    }
                }
                let mut i: usize = 0;
                while i < a.nodes.len()
                    invariant
                        defs.wf(),
                        nested@ == old(nested)@,
                        nested_ok(defs, nested@),
                        i <= a.nodes.len(),
                        a.nodes.len() == kids.len(),
                        forall|k: int| 0 <= k < i ==> #[trigger] node_resolved(a.nodes@[k]),
                        forall|k: int| i <= k < a.nodes.len() ==> a.nodes@[k] == kids[k],
                        forall|k: int| 0 <= k < kids.len() ==> #[trigger] node_unresolved(kids[k]),
                        a0.nodes@ == kids,
                        *old(self) == Node::And(a0),
                        a.limits == a0.limits,
                        a.named == a0.named,
                        a.anchor == a0.anchor,
                        a.name_outside == a0.name_outside,
                        def_free(orig) ==> forall|k: int| 0 <= k < i ==> #[trigger] shape(a.nodes@[k]) == shape(kids[k]),
                        def_free(orig) ==> forall|k: int| 0 <= k < kids.len() ==> #[trigger] def_free(kids[k]),
                        orig == *old(self),
                        dm == def_shapes(defs.entries()),
                        nk == defs.keys().len(),
                        vn == views(old(nested)@),
                        ks == shapes(kids),
                        ks.len() == kids.len(),
                        forall|k: int| 0 <= k < kids.len() ==> #[trigger] ks[k] == shape(kids[k]),
                        done.len() == i,
                        forall|k: int| 0 <= k < i ==> #[trigger] shape(a.nodes@[k]) == done[k],
                        spec_subst_all(ks, dm, nk, vn) == prepend_ok(done, spec_subst_all(ks.skip(i as int), dm, nk, vn)),
                    decreases a.nodes.len() - i,
                {
                    proof {
                        assert(decreases_to!(*old(self) => (*old(self))->And_0));
                        assert(decreases_to!(a0 => a0.nodes));
                        assert(decreases_to!(a0.nodes => a0.nodes@));
                        assert(decreases_to!(a0.nodes@ => kids[i as int]));
                    }
                    let ghost t = ks.skip(i as int);
                    match a.nodes[i].substitute_defs(nested, defs) {
                        Ok(()) => {},
                        Err(e) => {
                            proof {
                                assert(t[0] == ks[i as int]);
                                assert(spec_subst_all(t, dm, nk, vn) == Err::<Seq<Shape>, usize>(e.code));
                            }
                            return Err(e);
                        },
                    }
                    proof {
                        let y = shape(a.nodes@[i as int]);
                        assert(t[0] == ks[i as int]);
                        assert(t.drop_first() =~= ks.skip(i + 1));
                        lemma_prepend_step(done, y, spec_subst_all(t.drop_first(), dm, nk, vn));
                        done = done.push(y);
                    }
                    i = i + 1;
                }
                proof {
                    lemma_and_children(*a);
                    if def_free(orig) {
                        lemma_shapes_pointwise(a.nodes@, kids);
                    }
                    assert(ks.skip(i as int) =~= Seq::<Shape>::empty());
                    assert(done + Seq::<Shape>::empty() =~= done);
                    lemma_shapes(a.nodes@);
                    assert(shapes(a.nodes@) =~= done);
                }
            },
            Node::Or(a) => {
                proof {
                    lemma_or_children(*a);
                    lemma_all_def_free(a.nodes@);
                }
                let ghost a0 = *a;
                let ghost kids = a.nodes@;
                let ghost ks = shapes(kids);
                let ghost mut done: Seq<Shape> = Seq::empty();
                proof {
                    lemma_shapes(kids);
                    assert(ks.skip(0) =~= ks);
                    assert(prepend_ok(done, spec_subst_all(ks, dm, nk, vn)) == spec_subst_all(ks, dm, nk, vn)) by {
                        lemma_prepend_empty(spec_subst_all(ks, dm, nk, vn));
                    }
                }
                let mut i: usize = 0;
                while i < a.nodes.len()
                    invariant
                        defs.wf(),
                        nested@ == old(nested)@,
                        nested_ok(defs, nested@),
                        i <= a.nodes.len(),
                        a.nodes.len() == kids.len(),
                        forall|k: int| 0 <= k < i ==> #[trigger] node_resolved(a.nodes@[k]),
                        forall|k: int| i <= k < a.nodes.len() ==> a.nodes@[k] == kids[k],
                        forall|k: int| 0 <= k < kids.len() ==> #[trigger] node_unresolved(kids[k]),
                        a0.nodes@ == kids,
                        *old(self) == Node::Or(a0),
                        a.limits == a0.limits,
                        a.named == a0.named,
                        a.name_outside == a0.name_outside,
                        def_free(orig) ==> forall|k: int| 0 <= k < i ==> #[trigger] shape(a.nodes@[k]) == shape(kids[k]),
                        def_free(orig) ==> forall|k: int| 0 <= k < kids.len() ==> #[trigger] def_free(kids[k]),
                        orig == *old(self),
                        dm == def_shapes(defs.entries()),
                        nk == defs.keys().len(),
                        vn == views(old(nested)@),
                        ks == shapes(kids),
                        ks.len() == kids.len(),
                        forall|k: int| 0 <= k < kids.len() ==> #[trigger] ks[k] == shape(kids[k]),
                        done.len() == i,
                        forall|k: int| 0 <= k < i ==> #[trigger] shape(a.nodes@[k]) == done[k],
                        spec_subst_all(ks, dm, nk, vn) == prepend_ok(done, spec_subst_all(ks.skip(i as int), dm, nk, vn)),
                    decreases a.nodes.len() - i,
                {
                    proof {
                        assert(decreases_to!(*old(self) => (*old(self))->Or_0));
                        assert(decreases_to!(a0 => a0.nodes));
                        assert(decreases_to!(a0.nodes => a0.nodes@));
                        assert(decreases_to!(a0.nodes@ => kids[i as int]));
                    }
                    let ghost t = ks.skip(i as int);
                    match a.nodes[i].substitute_defs(nested, defs) {
                        Ok(()) => {},
                        Err(e) => {
                            proof {
                                assert(t[0] == ks[i as int]);
                                assert(spec_subst_all(t, dm, nk, vn) == Err::<Seq<Shape>, usize>(e.code));
                            }
                            return Err(e);
                        },
                    }
                    proof {
                        let y = shape(a.nodes@[i as int]);
                        assert(t[0] == ks[i as int]);
                        assert(t.drop_first() =~= ks.skip(i + 1));
                        lemma_prepend_step(done, y, spec_subst_all(t.drop_first(), dm, nk, vn));
                        done = done.push(y);
                    }
                    i = i + 1;
                }
                proof {
                    lemma_or_children(*a);
                    if def_free(orig) {
                        lemma_shapes_pointwise(a.nodes@, kids);
                    }
                    assert(ks.skip(i as int) =~= Seq::<Shape>::empty());
                    assert(done + Seq::<Shape>::empty() =~= done);
                    lemma_shapes(a.nodes@);
                    assert(shapes(a.nodes@) =~= done);
                }
            },
            Node::Def(def_node) => {
                let mut node = match defs.get(&def_node.name) {
                    Some(n) => n,
                    None => {
                        return Err(Error::with_detail(108, "No definition for DefNode ", def_node.name.as_slice(), ""));
                    },
                };
                if def_node.limits != Limits::default() {
                    let ghost before = node;
                    node.set_limits(def_node.limits);
                    proof {
                        lemma_same_but_limits_unresolved(before, node);
                    }
                }
                if def_node.named.is_some() {
                    let ghost before = node;
                    node.set_named(copy_name(&def_node.named), def_node.name_outside);
                    proof {
                        lemma_same_but_name_unresolved(before, node);
                    }
                }
                if contains_chars(nested, &def_node.name) {
                    return Err(Error::with_detail(109, "", def_node.name.as_slice(), " is included recursively"));
                }
                let ghost before_push = nested@;
                nested.push(copy_chars(&def_node.name));
                proof {
                    assert(views(nested@) =~= views(before_push).push(def_node.name@));
                    assert forall|x: int, y: int| 0 <= x < y < views(nested@).len() implies views(nested@)[x] != views(nested@)[y] by {
                        if y == before_push.len() {
                            assert(views(before_push).contains(views(before_push)[x]));
                        }
                    }
                    assert forall|k: int| 0 <= k < nested@.len() implies #[trigger] defs.keys().contains(nested@[k]@) by {
                        if k < before_push.len() {
                            assert(nested@[k] == before_push[k]);
                        }
                    }
                    lemma_distinct_subset_len(views(nested@), defs.keys());
                }
                match node.substitute_defs(nested, defs) {
                    Ok(()) => {},
                    Err(e) => {
                        return Err(e);
                    },
                }
                nested.pop();
                proof {
                    assert(nested@ =~= before_push);
                }
                def_node.node = Box::new(node);
            },
            _ => {},
        }
        Ok(())
    }
}

/// No shapes in front change nothing.
proof fn lemma_prepend_empty(r: Result<Seq<Shape>, usize>)
    ensures
        prepend_ok(Seq::empty(), r) == r,
{
    if r is Ok {
        assert(Seq::<Shape>::empty() + r->Ok_0 =~= r->Ok_0);
    }
}

/// Putting **p**, then **y**, in front.
proof fn lemma_prepend_step(p: Seq<Shape>, y: Shape, r: Result<Seq<Shape>, usize>)
    ensures
        prepend_ok(p, prepend_ok(seq![y], r)) == prepend_ok(p.push(y), r),
{
    if r is Ok {
        assert(p + (seq![y] + r->Ok_0) =~= p.push(y) + r->Ok_0);
    }
}

/// A definition replaces any earlier one with the same name: after two definitions of a name
/// it is the second that is found, and the other definitions are untouched.
pub proof fn law_last_definition_wins(defs: Map<Seq<char>, Node>, name: Seq<char>, first: Node, second: Node)
    ensures
        defs.insert(name, first).insert(name, second) =~= defs.insert(name, second),
        defs.insert(name, first).insert(name, second)[name] == second,
{
}

} // verus!
