//! ## Reports
//! Used to deliver the search results to the caller. Results form a tree, AndNode and OrNode are branches, the other
//! Nodes are leaves. **Report** is built up from the successful **Path** that walked the entire tree.
use vstd::prelude::*;

use crate::defs::chars_eq;
use crate::text::{str_to_chars, Text};
use crate::tree::name_view;
use crate::walk::{gather_view, law_reports_named, matched_ok, outside_free, path_ok, reports_root, views_named, Matched, Path};

verus! {

/// The result of a search for one unit of the regular expression.
pub struct Report {
    /// Match information for the step this Report is representing
    pub matched: Matched,
    /// The name of the field: if None then the field should not be included in the Report tree, if Some("") it is included but
    /// unnamed, otherwise it is recorded with the given name
    pub name: Option<Vec<char>>,
    /// Array of child Report structs, only non-empty for And and Or nodes. OrNodes will have only a single child node, AndNodes can have many.
    pub subreports: Vec<Report>,
}

/// A report and all the reports below it lie in the text.
pub open spec fn report_ok(r: Report, text: Seq<char>) -> bool
    decreases r, 1nat,
{
    matched_ok(r.matched, text) && reports_ok(r.subreports@, text)
}

/// Each of the reports lies in the text, with all the reports below it.
pub open spec fn reports_ok(rs: Seq<Report>, text: Seq<char>) -> bool
    decreases rs, 0nat,
{
    if rs.len() == 0 {
        true
    } else {
        report_ok(rs[0], text) && reports_ok(rs.drop_first(), text)
    }
}

/// **reports_ok** holds exactly when it holds of each report.
pub proof fn lemma_reports_ok(rs: Seq<Report>, text: Seq<char>)
    ensures
        reports_ok(rs, text) <==> forall|i: int| 0 <= i < rs.len() ==> #[trigger] report_ok(rs[i], text),
    decreases rs.len(),
{
    if rs.len() > 0 {
        lemma_reports_ok(rs.drop_first(), text);
        if forall|i: int| 0 <= i < rs.len() ==> #[trigger] report_ok(rs[i], text) {
            assert forall|i: int| 0 <= i < rs.drop_first().len() implies #[trigger] report_ok(rs.drop_first()[i], text) by {
                assert(report_ok(rs[i + 1], text));
            }
            assert(report_ok(rs[0], text));
        }
        if reports_ok(rs, text) {
            assert forall|i: int| 0 <= i < rs.len() implies #[trigger] report_ok(rs[i], text) by {
                if i > 0 {
                    assert(report_ok(rs.drop_first()[i - 1], text));
                }
            }
        }
    }
}

/// What a report holds: its match, its name, and the reports below it.
pub struct ReportView {
    pub matched: Matched,
    pub name: Option<Seq<char>>,
    pub subs: Seq<ReportView>,
}

/// The view of a report.
pub open spec fn report_view(r: Report) -> ReportView
    decreases r, 1nat,
{
    ReportView { matched: r.matched, name: name_view(r.name), subs: report_views(r.subreports@) }
}

/// The views of a list of reports.
pub open spec fn report_views(rs: Seq<Report>) -> Seq<ReportView>
    decreases rs, 0nat,
{
    if rs.len() == 0 {
        Seq::empty()
    } else {
        seq![report_view(rs[0])] + report_views(rs.drop_first())
    }
}

/// **report_views** maps each report to its view.
pub proof fn lemma_report_views(rs: Seq<Report>)
    ensures
        report_views(rs).len() == rs.len(),
        forall|i: int| 0 <= i < rs.len() ==> #[trigger] report_views(rs)[i] == report_view(rs[i]),
    decreases rs.len(),
{
    if rs.len() > 0 {
        lemma_report_views(rs.drop_first());
        assert forall|i: int| 0 <= i < rs.len() implies #[trigger] report_views(rs)[i] == report_view(rs[i]) by {
            if i > 0 {
                assert(report_views(rs)[i] == report_views(rs.drop_first())[i - 1]);
                assert(rs.drop_first()[i - 1] == rs[i]);
            }
        }
    }
}

/// The views of two lists of reports put together.
pub proof fn lemma_report_views_add(a: Seq<Report>, b: Seq<Report>)
    ensures
        report_views(a + b) == report_views(a) + report_views(b),
{
    lemma_report_views(a);
    lemma_report_views(b);
    lemma_report_views(a + b);
    assert(report_views(a + b) =~= report_views(a) + report_views(b));
}

/// The views of a list of reports with one more report.
pub proof fn lemma_report_views_push(a: Seq<Report>, r: Report)
    ensures
        report_views(a.push(r)) == report_views(a).push(report_view(r)),
{
    lemma_report_views(a);
    lemma_report_views(a.push(r));
    assert(report_views(a.push(r)) =~= report_views(a).push(report_view(r)));
}

/// The reports named **name** in a report tree, in order: the report itself first, then those
/// below each of its subreports in turn.
pub open spec fn by_name(r: Report, name: Seq<char>) -> Seq<Report>
    decreases r, 1nat,
{
    (if name_view(r.name) == Some(name) { seq![r] } else { Seq::empty() }) + by_name_all(r.subreports@, name)
}

/// The reports named **name** in a list of report trees, in order.
pub open spec fn by_name_all(rs: Seq<Report>, name: Seq<char>) -> Seq<Report>
    decreases rs, 0nat,
{
    if rs.len() == 0 {
        Seq::empty()
    } else {
        by_name(rs[0], name) + by_name_all(rs.drop_first(), name)
    }
}

/// The named reports of a report tree, in order: a report with a name, then the named reports
/// below each of its subreports in turn. The reports below an unnamed report are not visited.
pub open spec fn named_order(r: Report) -> Seq<Report>
    decreases r, 1nat,
{
    if r.name is None {
        Seq::empty()
    } else {
        seq![r] + named_order_all(r.subreports@)
    }
}

/// The named reports of a list of report trees, in order.
pub open spec fn named_order_all(rs: Seq<Report>) -> Seq<Report>
    decreases rs, 0nat,
{
    if rs.len() == 0 {
        Seq::empty()
    } else {
        named_order(rs[0]) + named_order_all(rs.drop_first())
    }
}

/// Every report of the tree has a name (the empty one included).
pub open spec fn all_named(r: Report) -> bool
    decreases r, 1nat,
{
    r.name is Some && all_named_all(r.subreports@)
}

/// Every report of the trees has a name.
pub open spec fn all_named_all(rs: Seq<Report>) -> bool
    decreases rs, 0nat,
{
    rs.len() == 0 || (all_named(rs[0]) && all_named_all(rs.drop_first()))
}

/// **get_named** agrees with **get_by_name** on a report tree whose reports all have names: the
/// reports that **get_named** files under a name are those **get_by_name** gives for it, in the
/// same order (and none, so no entry, for a name that no report has).
pub proof fn law_named_agrees_by_name(r: Report, name: Seq<char>)
    requires
        all_named(r),
    ensures
        with_name(named_order(r), name) == by_name(r, name),
    decreases r, 1nat,
{
    lemma_named_agrees_all(r.subreports@, name);
    let head = seq![r];
    Seq::filter_distributes_over_add(head, named_order_all(r.subreports@), |x: Report| name_view(x.name) == Some(name));
    reveal_with_fuel(Seq::filter, 2);
    assert(with_name(head, name) =~= (if name_view(r.name) == Some(name) { seq![r] } else { Seq::<Report>::empty() }));
}

/// A report whose view and the views below it all have names has a name, as do all the
/// reports below it.
proof fn lemma_named_view(r: Report)
    requires
        report_view(r).name is Some,
        views_named(report_view(r).subs),
    ensures
        all_named(r),
    decreases r, 1nat,
{
    lemma_named_views(r.subreports@);
}

/// **lemma_named_view** for a list of reports.
proof fn lemma_named_views(rs: Seq<Report>)
    requires
        views_named(report_views(rs)),
    ensures
        all_named_all(rs),
    decreases rs, 0nat,
{
    if rs.len() > 0 {
        let v = report_views(rs);
        assert(v[0] == report_view(rs[0]));
        assert(v.drop_first() =~= report_views(rs.drop_first()));
        lemma_named_view(rs[0]);
        lemma_named_views(rs.drop_first());
    }
}

/// **law_named_agrees_by_name** for a list of report trees.
proof fn lemma_named_agrees_all(rs: Seq<Report>, name: Seq<char>)
    requires
        all_named_all(rs),
    ensures
        with_name(named_order_all(rs), name) == by_name_all(rs, name),
    decreases rs, 0nat,
{
    if rs.len() > 0 {
        law_named_agrees_by_name(rs[0], name);
        lemma_named_agrees_all(rs.drop_first(), name);
        Seq::filter_distributes_over_add(named_order(rs[0]), named_order_all(rs.drop_first()), |x: Report| name_view(x.name) == Some(name));
    } else {
        assert(with_name(Seq::<Report>::empty(), name) =~= Seq::<Report>::empty());
    }
}

/// The reports of a list named **name**, in order.
pub open spec fn with_name(rs: Seq<Report>, name: Seq<char>) -> Seq<Report> {
    rs.filter(|x: Report| name_view(x.name) == Some(name))
}

/// Taking one more report tree into account adds its named reports at the end.
proof fn lemma_by_name_take(rs: Seq<Report>, i: int, name: Seq<char>)
    requires
        0 <= i < rs.len(),
    ensures
        by_name_all(rs.take(i + 1), name) == by_name_all(rs.take(i), name) + by_name(rs[i], name),
    decreases i,
{
    if i == 0 {
        assert(rs.take(1).drop_first() =~= Seq::<Report>::empty());
        assert(rs.take(0) =~= Seq::<Report>::empty());
        assert(rs.take(1)[0] == rs[0]);
        assert(by_name_all(Seq::<Report>::empty(), name) == Seq::<Report>::empty());
        assert(by_name_all(rs.take(1), name) =~= by_name(rs[0], name) + Seq::<Report>::empty());
        assert(by_name_all(rs.take(0), name) + by_name(rs[0], name) =~= by_name(rs[0], name));
    } else {
        lemma_by_name_take(rs.drop_first(), i - 1, name);
        assert(rs.take(i + 1).drop_first() =~= rs.drop_first().take(i));
        assert(rs.take(i).drop_first() =~= rs.drop_first().take(i - 1));
        assert(rs.take(i + 1)[0] == rs[0]);
        assert(rs.take(i)[0] == rs[0]);
        assert(rs.drop_first()[i - 1] == rs[i]);
        assert(by_name_all(rs.take(i + 1), name) =~= by_name_all(rs.take(i), name) + by_name(rs[i], name));
    }
}

/// Taking one more report tree into account adds its named reports at the end.
proof fn lemma_named_order_take(rs: Seq<Report>, i: int)
    requires
        0 <= i < rs.len(),
    ensures
        named_order_all(rs.take(i + 1)) == named_order_all(rs.take(i)) + named_order(rs[i]),
    decreases i,
{
    if i == 0 {
        assert(rs.take(1).drop_first() =~= Seq::<Report>::empty());
        assert(rs.take(0) =~= Seq::<Report>::empty());
        assert(rs.take(1)[0] == rs[0]);
        assert(named_order_all(Seq::<Report>::empty()) == Seq::<Report>::empty());
        assert(named_order_all(rs.take(1)) =~= named_order(rs[0]) + Seq::<Report>::empty());
        assert(named_order_all(rs.take(0)) + named_order(rs[0]) =~= named_order(rs[0]));
    } else {
        lemma_named_order_take(rs.drop_first(), i - 1);
        assert(rs.take(i + 1).drop_first() =~= rs.drop_first().take(i));
        assert(rs.take(i).drop_first() =~= rs.drop_first().take(i - 1));
        assert(rs.take(i + 1)[0] == rs[0]);
        assert(rs.take(i)[0] == rs[0]);
        assert(rs.drop_first()[i - 1] == rs[i]);
        assert(named_order_all(rs.take(i + 1)) =~= named_order_all(rs.take(i)) + named_order(rs[i]));
    }
}

/// The reports of a search, grouped by name: **get(NAME)** gives the reports named NAME.
pub struct NamedReports<'a> {
    /// every named report, in order
    pub reports: Vec<&'a Report>,
}

impl<'a> NamedReports<'a> {
    /// The reports named **name**, in order, or None if there are none.
    pub fn get(&self, name: &str) -> (r: Option<Vec<&'a Report>>)
        ensures
            r is None <==> with_name(self.reports@.map_values(|x: &Report| *x), name@).len() == 0,
            r matches Some(v) ==> v@.map_values(|x: &Report| *x) == with_name(self.reports@.map_values(|x: &Report| *x), name@),
    {
        let ghost all = self.reports@.map_values(|x: &Report| *x);
        let target = str_to_chars(name);
        let mut v: Vec<&'a Report> = Vec::new();
        let mut i: usize = 0;
        while i < self.reports.len()
            invariant
                i <= self.reports.len(),
                all == self.reports@.map_values(|x: &Report| *x),
                target@ == name@,
                v@.map_values(|x: &Report| *x) == with_name(all.take(i as int), name@),
            decreases self.reports.len() - i,
        {
            let r: &'a Report = self.reports[i];
            let ghost before = v@;
            proof {
                assert(all.take(i + 1) =~= all.take(i as int).push(all[i as int]));
                all.take(i as int).lemma_filter_push(all[i as int], |x: Report| name_view(x.name) == Some(name@));
                assert(all[i as int] == *r);
            }
            let hit = match &r.name {
                Some(n) => chars_eq(n, &target),
                None => false,
            };
            if hit {
                v.push(r);
                proof {
                    assert(v@.map_values(|x: &Report| *x) =~= before.map_values(|x: &Report| *x).push(*r));
                }
            }
            i = i + 1;
        }
        proof {
            assert(all.take(self.reports.len() as int) =~= all);
        }
        if v.len() == 0 {
            None
        } else {
            Some(v)
        }
    }
}

impl Report {
    /// Constructor: creates a new report from a successful Path of the whole regular expression:
    /// the report of its match.
    pub fn new(root: &Path, text: &Text) -> (r: Report)
        requires
            exists|n: crate::tree::Node| path_ok(*root, n, text@),
            reports_root(*root),
        ensures
            report_ok(r, text@),
            r.matched == root->And_0@[1].matched,
            name_view(r.name) == name_view(root->And_0@[0].node.named),
            report_view(r) == gather_view(*root)[0],
            outside_free(*root) ==> all_named(r),
    {
        let ghost n = choose|n: crate::tree::Node| path_ok(*root, n, text@);
        let mut reports = root.gather_reports(Ghost(n), Ghost(text@));
        proof {
            lemma_reports_ok(reports@, text@);
            lemma_report_views(reports@);
            if outside_free(*root) {
                law_reports_named(*root, n, text@);
                lemma_named_views(reports@);
            }
        }
        reports.remove(0)
    }

    /// Gets the string matched by this unit
    pub fn string(&self, text: &Text) -> (s: String)
        requires
            matched_ok(self.matched, text@),
        ensures
            s@ == text@.subrange(self.matched.char_start as int, self.matched.char_end as int),
    {
        text.substring(self.matched.char_start, self.matched.char_end)
    }

    /// Gets **Report** nodes representing matches for named Nodes. The return is a *Vec* because named matches can occur multiple
    /// times - for example, _\?\<name\>abc\)*_
    pub fn get_by_name<'b>(&'b self, name: &str) -> (v: Vec<&'b Report>)
        ensures
            v@.map_values(|x: &Report| *x) == by_name(*self, name@),
        decreases self,
    {
        let target = str_to_chars(name);
        let mut v: Vec<&'b Report> = Vec::new();
        let hit = match &self.name {
            Some(n) => chars_eq(n, &target),
            None => false,
        };
        if hit {
            v.push(self);
        }
        let ghost head: Seq<Report> = if name_view(self.name) == Some(name@) { seq![*self] } else { Seq::empty() };
        proof {
            assert(v@.map_values(|x: &Report| *x) =~= head);
            assert(self.subreports@.take(0) =~= Seq::<Report>::empty());
            assert(head + by_name_all(self.subreports@.take(0), name@) =~= head);
        }
        let mut i: usize = 0;
        while i < self.subreports.len()
            invariant
                i <= self.subreports.len(),
                v@.map_values(|x: &Report| *x) == head + by_name_all(self.subreports@.take(i as int), name@),
            decreases self.subreports.len() - i,
        {
            proof {
                assert(decreases_to!(*self => self.subreports));
                assert(decreases_to!(self.subreports => self.subreports@));
                assert(decreases_to!(self.subreports@ => self.subreports@[i as int]));
            }
            let ghost before = v@;
            let mut x = self.subreports[i].get_by_name(name);
            let ghost xs = x@;
            v.append(&mut x);
            proof {
                lemma_by_name_take(self.subreports@, i as int, name@);
                assert(v@ == before + xs);
                assert(v@.map_values(|x: &Report| *x) =~= before.map_values(|x: &Report| *x) + xs.map_values(|x: &Report| *x));
            }
            i = i + 1;
        }
        proof {
            assert(self.subreports@.take(self.subreports.len() as int) =~= self.subreports@);
        }
        v
    }

    /// Gets the named **Report** nodes, grouped by name.
    pub fn get_named<'b>(&'b self) -> (r: NamedReports<'b>)
        ensures
            r.reports@.map_values(|x: &Report| *x) == named_order(*self),
    {
        NamedReports { reports: self.named_list() }
    }

    /// The named reports of this report tree, in order.
    fn named_list<'b>(&'b self) -> (v: Vec<&'b Report>)
        ensures
            v@.map_values(|x: &Report| *x) == named_order(*self),
        decreases self,
    {
        let mut v: Vec<&'b Report> = Vec::new();
        if self.name.is_none() {
            proof {
                assert(v@.map_values(|x: &Report| *x) =~= Seq::<Report>::empty());
            }
            return v;
        }
        v.push(self);
        proof {
            assert(v@.map_values(|x: &Report| *x) =~= seq![*self]);
            assert(self.subreports@.take(0) =~= Seq::<Report>::empty());
            assert(seq![*self] + named_order_all(self.subreports@.take(0)) =~= seq![*self]);
        }
        let mut i: usize = 0;
        while i < self.subreports.len()
            invariant
                i <= self.subreports.len(),
                self.name is Some,
                v@.map_values(|x: &Report| *x) == seq![*self] + named_order_all(self.subreports@.take(i as int)),
            decreases self.subreports.len() - i,
        {
            proof {
                assert(decreases_to!(*self => self.subreports));
                assert(decreases_to!(self.subreports => self.subreports@));
                assert(decreases_to!(self.subreports@ => self.subreports@[i as int]));
            }
            let ghost before = v@;
            let mut x = self.subreports[i].named_list();
            let ghost xs = x@;
            v.append(&mut x);
            proof {
                lemma_named_order_take(self.subreports@, i as int);
                assert(v@ == before + xs);
                assert(v@.map_values(|x: &Report| *x) =~= before.map_values(|x: &Report| *x) + xs.map_values(|x: &Report| *x));
            }
            i = i + 1;
        }
        proof {
            assert(self.subreports@.take(self.subreports.len() as int) =~= self.subreports@);
        }
        v
    }

    /// Gets the start and end position of the match in bytes
    pub fn byte_pos(&self) -> (r: (usize, usize))
        ensures
            r == (self.matched.start, self.matched.end),
    {
        (self.matched.start, self.matched.end)
    }

    /// Gets the start and end position of the match in chars
    pub fn char_pos(&self) -> (r: (usize, usize))
        ensures
            r == (self.matched.char_start, self.matched.char_end),
    {
        (self.matched.char_start, self.matched.char_end)
    }

    /// Gets the length of the match in bytes
    pub fn len_bytes(&self) -> (n: usize)
        requires
            self.matched.start <= self.matched.end,
        ensures
            n == self.matched.end - self.matched.start,
    {
        self.matched.len_bytes()
    }

    /// Gets the length of the match in chars
    pub fn len_chars(&self) -> (n: usize)
        requires
            self.matched.char_start <= self.matched.char_end,
        ensures
            n == self.matched.char_end - self.matched.char_start,
    {
        self.matched.len_chars()
    }
}

} // verus!
