//! The parser for traditional (elisp/perl style) regular expressions.
use vstd::prelude::*;

use crate::defs::{def_shapes, nested_ok, spec_subst, views, with_defs, Defs, Sources};
use crate::alt_parse::{files_in_view, source_files, spec_alt_group, use_error, use_met, FileView};
use crate::error::{agrees, same_result, Error};
use crate::limits::{lemma_limits_keeps, spec_parse_limits, Limits};
use crate::peekable::{after_consume, keeps_last, lemma_keeps_first, lemma_keeps_skip, lemma_keeps_trans, lookahead, Peekable};
use crate::tree::{lemma_shape_kind, def_free, lemma_all_def_free, shape, shapes, lemma_shapes, lemma_shapes_push, lemma_shapes_add, Shape, node_resolved, lemma_and_children, lemma_or_children, OrNode, copy_chars, is_escape_code, lowercase_string, name_view, node_limits, node_unresolved, to_lowercase, AndNode, CharsNode, Node, Range, RangeNode, SpecialNode};

verus! {

/// Whether **c** is one of the escape codes with a special meaning ("adluowx").
pub fn is_escape_code_char(c: char) -> (r: bool)
    ensures
        r == is_escape_code(c),
{
    c == 'a' || c == 'd' || c == 'l' || c == 'u' || c == 'o' || c == 'w' || c == 'x'
}

/// The character an escaped character stands for: \n and \t for newline and tab, the character itself otherwise.
pub open spec fn spec_escaped(ch: char) -> char {
    if ch == 'n' {
        '\n'
    } else if ch == 't' {
        '\t'
    } else {
        ch
    }
}

/// What **AndNode::parse_named** reads as a name: the characters up to '>' (an error if the
/// group ends first, code 2, or the text ends first, code 3), and the stream after the '>'.
pub open spec fn spec_group_name(s: Seq<char>) -> (Result<Seq<char>, usize>, Seq<char>)
    decreases s.len(),
{
    if s.len() == 0 {
        (Err(3), s)
    } else if s[0] == '>' {
        (Ok(Seq::empty()), s.drop_first())
    } else if s[0] == '\\' && s.len() > 1 && s[1] == ')' {
        (Err(2), s.drop_first())
    } else {
        prefix_name(s[0], spec_group_name(s.drop_first()))
    }
}

/// Puts **c** in front of the name in **r**.
pub open spec fn prefix_name(c: char, r: (Result<Seq<char>, usize>, Seq<char>)) -> (Result<Seq<char>, usize>, Seq<char>) {
    match r.0 {
        Ok(x) => (Ok(seq![c] + x), r.1),
        Err(e) => (Err(e), r.1),
    }
}

/// What **AndNode::parse_named** gives for an AND group: "?<NAME>" names the group, "?" alone
/// leaves it out of the report, and anything else reports it without a name.
pub open spec fn spec_parse_named(s: Seq<char>) -> (Result<Option<Seq<char>>, usize>, Seq<char>) {
    if s.len() >= 2 && s[0] == '?' && s[1] == '<' {
        let (r, rest) = spec_group_name(s.skip(2));
        match r {
            Ok(x) => (Ok(Some(x)), rest),
            Err(e) => (Err(e), rest),
        }
    } else if s.len() >= 1 && s[0] == '?' {
        (Ok(None), s.drop_first())
    } else {
        (Ok(Some(Seq::empty())), s)
    }
}

/// What a traditional parse of a special character gives: the code ('.', '$' or the letter
/// after the backslash) and the stream after it.
pub open spec fn spec_special_code(s: Seq<char>) -> (char, Seq<char>) {
    if s[0] == '\\' {
        (s[1], s.skip(2))
    } else {
        (s[0], s.drop_first())
    }
}

/// The stream starts with something **SpecialNode::parse_node** can read: '.', '$', or a
/// backslash followed by another character.
pub open spec fn starts_special(s: Seq<char>) -> bool {
    s.len() > 0 && (s[0] == '.' || s[0] == '$' || (s[0] == '\\' && s.len() > 1))
}

/// Whether an escaped character **ch1**, followed by **ch2** ('x' where the text ends), ends a
/// run of plain characters: a group mark or an OR, an escape code, or a character followed by a
/// repetition mark or an OR.
pub open spec fn escape_ends_run(ch1: char, ch2: char) -> bool {
    ch1 == '(' || ch1 == ')' || ch1 == '|' || ch2 == '*' || ch2 == '?' || ch2 == '+' || ch2 == '|'
        || is_escape_code(ch1)
}

/// Whether a plain character ends a run of plain characters: it opens a set, is special, or is
/// a repetition mark.
pub open spec fn plain_ends_run(c: char) -> bool {
    c == '[' || c == '$' || c == '.' || c == '*' || c == '+' || c == '?' || c == '{'
}

/// The stream starts with a backslash and one more character.
pub open spec fn starts_escape(s: Seq<char>) -> bool {
    s.len() >= 2 && s[0] == '\\'
}

/// Whether a run of plain characters ends at the front of **s**.
pub open spec fn run_ends(s: Seq<char>) -> bool {
    if s.len() == 0 {
        true
    } else if starts_escape(s) {
        escape_ends_run(s[1], if s.len() >= 3 { s[2] } else { 'x' })
    } else {
        plain_ends_run(s[0])
    }
}

/// The character a run takes from the front of **s** (an escaped character stands for
/// **spec_escaped** of it), and the stream after it.
pub open spec fn run_take(s: Seq<char>) -> (char, Seq<char>) {
    if starts_escape(s) {
        (spec_escaped(s[1]), s.skip(2))
    } else {
        (s[0], s.drop_first())
    }
}

/// The run of plain characters at the front of **s**, after the characters **acc** read so far,
/// and the stream after it. After an OR (**after_or**) a run holds one character at most.
pub open spec fn spec_chars_run(s: Seq<char>, acc: Seq<char>, after_or: bool) -> (Seq<char>, Seq<char>)
    decreases s.len(),
{
    if run_ends(s) {
        (acc, s)
    } else {
        let (c, rest) = run_take(s);
        if after_or {
            (acc.push(c), rest)
        } else {
            spec_chars_run(rest, acc.push(c), after_or)
        }
    }
}

/// A backslash escape inside a run of plain characters stands for a character of its own: "\n"
/// for a newline, "\t" for a tab, and a backslash followed by any other character for that
/// character (so "\." is a dot). The run goes on after it, unless it follows an OR.
pub proof fn law_escape_in_run(c: char, s: Seq<char>, acc: Seq<char>, after_or: bool)
    requires
        !run_ends(seq!['\\', c] + s),
    ensures
        ({
            let x = if c == 'n' { '\n' } else if c == 't' { '\t' } else { c };
            spec_chars_run(seq!['\\', c] + s, acc, after_or) == if after_or {
                (acc.push(x), s)
            } else {
                spec_chars_run(s, acc.push(x), after_or)
            }
        }),
{
    let t = seq!['\\', c] + s;
    assert(t.skip(2) =~= s);
    assert(starts_escape(t));
}

/// The case prefix of a run: "\c" (caseless, true) or "\C" (case-sensitive) is read, with the
/// stream after it.
pub open spec fn case_prefix(s: Seq<char>) -> (bool, Seq<char>) {
    if s.len() >= 2 && s[0] == '\\' && (s[1] == 'c' || s[1] == 'C') {
        (s[1] == 'c', s.skip(2))
    } else {
        (false, s)
    }
}

/// Whether the stream after a run of several characters starts with a repetition mark or an
/// OR, which binds to the last character alone (the stream must hold two characters).
pub open spec fn binds_last(s: Seq<char>) -> bool {
    s.len() >= 2 && (s[0] == '*' || s[0] == '?' || s[0] == '+' || s[0] == '{' || (s[0] == '\\' && s[1] == '|'))
}

/// The string of a Chars node: lowercased when caseless.
pub open spec fn case_string(no_case: bool, s: Seq<char>) -> Seq<char> {
    if no_case {
        lowercase_string(s)
    } else {
        s
    }
}

/// What **CharsNode::parse_node** gives on the stream **s**: Empty for an empty run, or the
/// Chars node, or an error code; and the stream after it. A single character takes the
/// repetition count that follows it; of several characters, the last is handed back to the
/// stream (with its "\c" prefix) when a repetition mark or an OR follows.
pub open spec fn spec_chars_node(s: Seq<char>, after_or: bool) -> (Result<Shape, usize>, Seq<char>) {
    let (nc, s1) = case_prefix(s);
    let (run, s2) = spec_chars_run(s1, Seq::empty(), after_or);
    let opts: usize = if nc { 2 } else { 0 };
    if run.len() == 0 {
        (Ok(Shape::Empty), s2)
    } else if run.len() == 1 {
        let (l, s3) = spec_parse_limits(s2);
        match l {
            Ok(l) => (Ok(chars_shape(case_string(nc, run), Limits { min: l.min, max: l.max, options: (l.options + opts) as usize })), s3),
            Err(c) => (Err(c), s3),
        }
    } else if binds_last(s2) {
        let back = if nc { seq!['\\', 'c', run.last()] } else { seq![run.last()] };
        (Ok(chars_shape(case_string(nc, run.drop_last()), Limits { min: 1, max: 1, options: opts })), back + s2)
    } else {
        (Ok(chars_shape(case_string(nc, run), Limits { min: 1, max: 1, options: opts })), s2)
    }
}

/// The shape of a Chars node as the parsers build it: unnamed.
pub open spec fn chars_shape(string: Seq<char>, limits: Limits) -> Shape {
    Shape::Chars { string, limits, named: None, name_outside: false }
}

/// What **SpecialNode::parse_node** gives on the stream **s**: the Special node of the code at
/// the front with the repetition count after it, or an error code; and the stream after it.
pub open spec fn spec_special_node(s: Seq<char>) -> (Result<Shape, usize>, Seq<char>) {
    let (code, r) = spec_special_code(s);
    let (l, r2) = spec_parse_limits(r);
    match l {
        Ok(l) => (Ok(Shape::Special { special: code, limits: l, named: None, name_outside: false }), r2),
        Err(c) => (Err(c), r2),
    }
}

/// The options of limits read by **Limits::parse** are the lazy bit alone.
pub proof fn lemma_parsed_options(s: Seq<char>)
    ensures
        spec_parse_limits(s).0 matches Ok(l) ==> l.options == 0 || l.options == 1,
{
}

impl CharsNode {
    /// maps escape characters to the actual code they represent
    pub fn escaped_chars(ch: char) -> (r: char)
        ensures
            r == spec_escaped(ch),
    {
        if ch == 'n' {
            '\n'
        } else if ch == 't' {
            '\t'
        } else {
            ch
        }
    }

    /// Traditional parser for Character units, strings of regular
    /// characters that must match exactly. It is made a little
    /// trickier because characters do not "clump" when attached to
    /// repetitions or OR nodes, so in some cases a **CharsNode** must be split.
    /// It gives **Empty** if there is no regular character at the front.
    pub fn parse_node(chars: &mut Peekable, after_or: bool) -> (r: Result<Node, Error>)
        ensures
            r matches Ok(n) ==> (n is Empty && final(chars)@.len() <= old(chars)@.len())
                || (n is Chars && n->Chars_0.named is None && !n->Chars_0.name_outside
                    && final(chars)@.len() < old(chars)@.len()),
            r is Err ==> r->Err_0.code == 7 || r->Err_0.code == 8,
            agrees(r, spec_chars_node(old(chars)@, after_or).0, |n: Node| shape(n)),
            r is Ok ==> final(chars)@ == spec_chars_node(old(chars)@, after_or).1,
    {
        let ghost s = chars@;
        let ghost s1 = case_prefix(s).1;
        let ghost target = spec_chars_run(s1, Seq::empty(), after_or);
        let mut string: Vec<char> = Vec::new();
        let mut no_case = false;
        let pre = chars.peek_2();
        if let (Some('\\'), Some(c)) = pre {
            if c == 'c' || c == 'C' {
                chars.consume(2);
                no_case = c == 'c';
            }
        }
        proof {
            assert(chars@ =~= s1);
            assert(no_case == case_prefix(s).0);
        }
        loop
            invariant_except_break
                after_or ==> string@.len() == 0 && chars@ == s1,
                spec_chars_run(chars@, string@, after_or) == target,
            invariant
                s1.len() - chars@.len() >= string@.len(),
                chars@.len() <= s1.len(),
            ensures
                (string@, chars@) == target,
            decreases chars@.len(),
        {
            let look = chars.peek_n(3);
            proof {
                assert(look@ == lookahead(chars@, 3));
            }
            let ghost before = chars@;
            match (look[0], look[1], look[2]) {
                (Some('\\'), Some(ch1), o_ch2) => {
                    let ch2 = o_ch2.unwrap_or('x');
                    if ch1 == '(' || ch1 == ')' || ch1 == '|' || ch2 == '*' || ch2 == '?' || ch2 == '+'
                        || ch2 == '|' || is_escape_code_char(ch1) {
                        break;
                    }
                    string.push(CharsNode::escaped_chars(ch1));
                    chars.consume(2);
                    proof {
                        assert(chars@ =~= before.skip(2));
                    }
                },
                (Some(ch0), _, _) => {
                    if ch0 == '[' || ch0 == '$' || ch0 == '.' || ch0 == '*' || ch0 == '+' || ch0 == '?' || ch0 == '{' {
                        break;
                    }
                    let c = chars.next().unwrap();
                    string.push(c);
                },
                _ => {
                    break;
                },
            }
            proof {
                assert(run_take(before) == (string@.last(), chars@));
            }
            if after_or {
                break;
            }
        }
        let count = string.len();
        let opts: usize = if no_case { Limits::NO_CASE } else { 0 };
        let mut limits = Limits { min: 1, max: 1, options: opts };
        if count == 0 {
            return Ok(Node::Empty);
        } else if count == 1 {
            proof {
                lemma_parsed_options(chars@);
            }
            let parsed = Limits::parse(chars)?;
            let o = parsed.options;
            assert((o | opts) == o + opts) by (bit_vector)
                requires
                    o == 0 || o == 1,
                    opts == 0 || opts == 2;
            limits = Limits { min: parsed.min, max: parsed.max, options: o | opts };
        } else {
            let ghost s2 = chars@;
            let pk = chars.peek_2();
            if let (Some(ch0), Some(ch1)) = pk {
                if ch0 == '*' || ch0 == '?' || ch0 == '+' || ch0 == '{' || (ch0 == '\\' && ch1 == '|') {
                    let ghost whole = string@;
                    let last = string.pop().unwrap();
                    chars.put_back(last);
                    if no_case {
                        chars.put_back('c');
                        chars.put_back('\\');
                    }
                    proof {
                        assert(string@ =~= whole.drop_last());
                        if no_case {
                            assert(chars@ =~= seq!['\\', 'c', whole.last()] + s2);
                        } else {
                            assert(chars@ =~= seq![whole.last()] + s2);
                        }
                    }
                }
            }
        }
        if no_case {
            string = to_lowercase(&string);
        }
        Ok(Node::Chars(CharsNode { string, limits, named: None, name_outside: false }))
    }
}

/// The shape of an unnamed Special node.
proof fn lemma_special_shape(special: char, limits: Limits)
    ensures
        shape(Node::Special(SpecialNode { limits, named: None, special, name_outside: false }))
            == (Shape::Special { special, limits, named: None, name_outside: false }),
{
}

impl SpecialNode {
    /// Traditional parser for Special Character units, escape
    /// sequences with special meaning ('\x' for hex) or characters
    /// with special meaning, like '.' or '$'. This is also used in
    /// the alternative parser since the definitions and handling are
    /// identical.
    pub fn parse_node(chars: &mut Peekable) -> (r: Result<Node, Error>)
        requires
            starts_special(old(chars)@),
        ensures
            r matches Err(e) ==> crate::parse::parse_error_code(e.code),
            agrees(r, spec_parse_limits(spec_special_code(old(chars)@).1).0, |n: Node| node_limits(n)),
            r matches Ok(n) ==> n is Special && n->Special_0.special == spec_special_code(old(chars)@).0
                && n->Special_0.named is None && !n->Special_0.name_outside,
            r is Ok ==> final(chars)@ == spec_parse_limits(spec_special_code(old(chars)@).1).1,
            agrees(r, spec_special_node(old(chars)@).0, |n: Node| shape(n)),
            r matches Err(e) ==> e.code == 7 || e.code == 8,
            r is Ok ==> final(chars)@.len() < old(chars)@.len(),
    {
        let ghost s = chars@;
        let first = chars.next();
        let special = if first == Some('\\') {
            chars.next().unwrap()
        } else {
            first.unwrap()
        };
        proof {
            if s[0] == '\\' {
                assert(chars@ =~= s.skip(2));
            }
        }
        let limits = Limits::parse(chars)?;
        let n = Node::Special(SpecialNode { limits, named: None, special, name_outside: false });
        proof {
            assert(special == spec_special_code(s).0);
            lemma_special_shape(special, limits);
        }
        Ok(n)
    }
}

/// Whether an escaped character in a set stands for a special code (the escape codes, \n and \t).
pub open spec fn set_special(c: char) -> bool {
    is_escape_code(c) || c == 'n' || c == 't'
}

/// What the body of a set "[...]" gives, read up to and including the closing ']', after the
/// contents **acc** (single characters, ranges, special codes) read so far: an escaped
/// character is a special code or a plain character, "x-]" is the characters 'x' and '-', "x-y"
/// is the range from 'x' to 'y', any other character stands for itself. A text that ends first
/// is error 9.
pub open spec fn spec_set_body(s: Seq<char>, acc: (Seq<char>, Seq<Range>, Seq<char>)) -> (Result<(Seq<char>, Seq<Range>, Seq<char>), usize>, Seq<char>)
    decreases s.len(),
{
    if s.len() == 0 {
        (Err(9), s)
    } else if s[0] == ']' {
        (Ok(acc), s.drop_first())
    } else if s[0] == '\\' && s.len() >= 2 {
        if set_special(s[1]) {
            spec_set_body(s.skip(2), (acc.0, acc.1, acc.2.push(s[1])))
        } else {
            spec_set_body(s.skip(2), (acc.0.push(s[1]), acc.1, acc.2))
        }
    } else if s.len() >= 3 && s[1] == '-' && s[2] == ']' {
        spec_set_body(s.skip(2), (acc.0.push(s[0]).push('-'), acc.1, acc.2))
    } else if s.len() >= 3 && s[1] == '-' {
        spec_set_body(s.skip(3), (acc.0, acc.1.push(Range { from: s[0], to: s[2] }), acc.2))
    } else {
        spec_set_body(s.drop_first(), (acc.0.push(s[0]), acc.1, acc.2))
    }
}

/// What **RangeNode::parse_node** gives (the '[' has been read): whether the set is negated
/// (a leading '^'), its contents and its repetition count, and the stream after them.
pub open spec fn spec_range_node(s: Seq<char>) -> (Result<(bool, (Seq<char>, Seq<Range>, Seq<char>), Limits), usize>, Seq<char>) {
    let not = s.len() > 0 && s[0] == '^';
    let s1 = if not { s.drop_first() } else { s };
    match spec_set_body(s1, (Seq::empty(), Seq::empty(), Seq::empty())) {
        (Err(e), r) => (Err(e), r),
        (Ok(parts), r) => match spec_parse_limits(r) {
            (Ok(l), r2) => (Ok((not, parts, l)), r2),
            (Err(e), r2) => (Err(e), r2),
        },
    }
}

/// What **RangeNode::parse_node** gives on the stream **s** as a node: an unnamed Range node.
pub open spec fn spec_range_shape(s: Seq<char>) -> (Result<Shape, usize>, Seq<char>) {
    match spec_range_node(s) {
        (Ok((not, (chars, ranges, specials), limits)), r) => (
            Ok(Shape::Range { not, chars, ranges, specials, limits, named: None, name_outside: false }),
            r,
        ),
        (Err(e), r) => (Err(e), r),
    }
}

/// The parts of a Range node that its parse decides.
pub open spec fn range_view(n: Node) -> (bool, (Seq<char>, Seq<Range>, Seq<char>), Limits) {
    (n->Range_0.not, (n->Range_0.chars@, n->Range_0.ranges@, n->Range_0.specials@), n->Range_0.limits)
}

impl RangeNode {
    /// Traditional parser for Range units, defined sets of characters
    /// which the next character must be in or not be in, depending on
    /// the mode. They are of the form [abci-mxyz], containing
    /// individual characters and character ranges. It is called with the '[' already read.
    /// This is also used in the alternative parser since the
    /// definitions and handling are identical.
    pub fn parse_node(chars: &mut Peekable) -> (r: Result<Node, Error>)
        ensures
            r matches Err(e) ==> crate::parse::parse_error_code(e.code),
            agrees(r, spec_range_node(old(chars)@).0, |n: Node| range_view(n)),
            agrees(r, spec_range_shape(old(chars)@).0, |n: Node| shape(n)),
            r matches Ok(n) ==> n is Range && n->Range_0.named is None && !n->Range_0.name_outside,
            r is Ok ==> final(chars)@ == spec_range_node(old(chars)@).1,
            r is Ok ==> final(chars)@.len() < old(chars)@.len(),
            r is Err ==> r->Err_0.code == 9 || r->Err_0.code == 7 || r->Err_0.code == 8,
    {
        let ghost s = chars@;
        let mut node = RangeNode {
            limits: Limits::default(),
            named: None,
            not: false,
            chars: Vec::new(),
            ranges: Vec::new(),
            specials: Vec::new(),
            name_outside: false,
        };
        if chars.peek() == Some('^') {
            chars.consume(1);
            node.not = true;
        }
        let ghost s1 = chars@;
        proof {
            assert(node.not == (s.len() > 0 && s[0] == '^'));
            assert(s1 == (if node.not { s.drop_first() } else { s }));
            assert(node.chars@ =~= Seq::<char>::empty());
            assert(node.ranges@ =~= Seq::<Range>::empty());
            assert(node.specials@ =~= Seq::<char>::empty());
        }
        loop
            invariant_except_break
                spec_set_body(s1, (Seq::empty(), Seq::empty(), Seq::empty())) == spec_set_body(chars@, (node.chars@, node.ranges@, node.specials@)),
            invariant
                s == old(chars)@,
                chars@.len() <= s1.len(),
                s1.len() <= s.len(),
                node.named is None,
                !node.name_outside,
                node.not == (s.len() > 0 && s[0] == '^'),
                s1 == (if node.not { s.drop_first() } else { s }),
            ensures
                chars@.len() < s1.len(),
                s1.len() <= s.len(),
                node.named is None,
                !node.name_outside,
                node.not == (s.len() > 0 && s[0] == '^'),
                spec_set_body(s1, (Seq::empty(), Seq::empty(), Seq::empty())) == (Ok::<(Seq<char>, Seq<Range>, Seq<char>), usize>((node.chars@, node.ranges@, node.specials@)), chars@),
            decreases chars@.len(),
        {
            let ghost before = chars@;
            let ghost p: (Seq<char>, Seq<Range>, Seq<char>) = (node.chars@, node.ranges@, node.specials@);
            let look = chars.peek_n(3);
            proof {
                assert(look@ == lookahead(before, 3));
                assert(look@[0] == lookahead(before, 3)[0]);
                assert(look@[1] == lookahead(before, 3)[1]);
                assert(look@[2] == lookahead(before, 3)[2]);
            }
            match (look[0], look[1], look[2]) {
                (Some(']'), _, _) => {
                    chars.consume(1);
                    break;
                },
                (Some('\\'), Some(ch1), _) => {
                    if is_escape_code_char(ch1) || ch1 == 'n' || ch1 == 't' {
                        node.specials.push(ch1);
                    } else {
                        node.chars.push(ch1);
                    }
                    chars.consume(2);
                },
                (Some(ch0), Some('-'), Some(']')) => {
                    node.chars.push(ch0);
                    node.chars.push('-');
                    chars.consume(2);
                },
                (Some(ch0), Some('-'), Some(ch2)) => {
                    node.ranges.push(Range { from: ch0, to: ch2 });
                    chars.consume(3);
                    proof {
                        assert(chars@ == before.skip(3));
                    }
                },
                (Some(_), _, _) => {
                    let c = chars.next().unwrap();
                    node.chars.push(c);
                },
                _ => {
                    proof {
                        assert(before.len() == 0);
                        assert(spec_set_body(s1, (Seq::empty(), Seq::empty(), Seq::empty())).0 == Err::<(Seq<char>, Seq<Range>, Seq<char>), usize>(9));
                        assert(spec_range_node(s).0 == Err::<(bool, (Seq<char>, Seq<Range>, Seq<char>), Limits), usize>(9));
                    }
                    return Err(Error::make(9, "Unterminated range"));
                },
            }
        }
        node.limits = Limits::parse(chars)?;
        Ok(Node::Range(node))
    }
}

impl AndNode {
    /// Parses out the name from a named And
    pub fn parse_named(chars: &mut Peekable) -> (r: Result<Option<Vec<char>>, Error>)
        ensures
            r matches Err(e) ==> crate::parse::parse_error_code(e.code),
            agrees(r, spec_parse_named(old(chars)@).0, |n: Option<Vec<char>>| name_view(n)),
            r matches Err(e) ==> e.code == 2 || e.code == 3,
            r is Ok ==> final(chars)@ == spec_parse_named(old(chars)@).1,
            r is Ok ==> final(chars)@.len() <= old(chars)@.len(),
    {
        let ghost s = chars@;
        match chars.peek_2() {
            // named match
            (Some('?'), Some('<')) => {
                proof {
                    assert(s.len() >= 2 && s[0] == '?' && s[1] == '<');
                }
                chars.consume(2);
                let ghost t = chars@;
                let mut chs: Vec<char> = Vec::new();
                let ghost mut i: int = 0;
                proof {
                    assert(t =~= s.skip(2));
                    assert(t.skip(0) =~= t);
                    assert(chs@ =~= t.take(0));
                    lemma_prefix_empty(spec_group_name(t));
                }
                loop
                    invariant_except_break
                        0 <= i <= t.len(),
                        chars@ == t.skip(i),
                        chs@ == t.take(i),
                        spec_group_name(t) == prefix_seq_name(chs@, spec_group_name(t.skip(i))),
                    invariant
                        t == s.skip(2),
                        s == old(chars)@,
                        chars@.len() <= s.len(),
                        s.len() >= 2 && s[0] == '?' && s[1] == '<',
                    ensures
                        spec_group_name(t) == (Ok::<Seq<char>, usize>(chs@), chars@),
                    decreases t.len() - i,
                {
                    let ghost before = chars@;
                    let nx = chars.next();
                    let pk = chars.peek();
                    match (nx, pk) {
                        (Some('>'), _) => {
                            proof {
                                assert(before.len() > 0 && before[0] == '>');
                                assert(spec_group_name(before) == (Ok::<Seq<char>, usize>(Seq::<char>::empty()), before.drop_first()));
                                lemma_prefix_seq_ok(chs@);
                                assert(prefix_seq_name(chs@, (Ok::<Seq<char>, usize>(Seq::<char>::empty()), before.drop_first()))
                                    == (Ok::<Seq<char>, usize>(chs@), before.drop_first()));
                            }
                            break;
                        },
                        (Some('\\'), Some(')')) => {
                            proof {
                                assert(before.len() > 1 && before[0] == '\\' && before[1] == ')');
                                assert(spec_group_name(before).0 == Err::<Seq<char>, usize>(2));
                                lemma_prefix_seq_err(chs@, spec_group_name(before), 2);
                                assert(spec_parse_named(s).0 == Err::<Option<Seq<char>>, usize>(2));
                            }
                            let e = Error::make(2, "Unterminated collect name in AND definition");
                            proof {
                                let r = Err::<Option<Vec<char>>, Error>(e);
                                assert(agrees(r, spec_parse_named(s).0, |n: Option<Vec<char>>| name_view(n)));
                            }
                            return Err(e);
                        },
                        (Some(ch), _) => {
                            proof {
                                assert(before.len() > 0 && before[0] == ch);
                                assert(spec_group_name(before) == prefix_name(ch, spec_group_name(before.drop_first())));
                                lemma_prefix_seq_step(chs@, ch, spec_group_name(before.drop_first()));
                                assert(before.drop_first() =~= t.skip(i + 1));
                                assert(t.take(i + 1) =~= t.take(i).push(ch));
                                i = i + 1;
                            }
                            chs.push(ch);
                        },
                        _ => {
                            proof {
                                assert(before.len() == 0);
                                assert(spec_group_name(before).0 == Err::<Seq<char>, usize>(3));
                                lemma_prefix_seq_err(chs@, spec_group_name(before), 3);
                                assert(spec_parse_named(s).0 == Err::<Option<Seq<char>>, usize>(3));
                            }
                            let e = Error::make(3, "error getting name in AND definition");
                            proof {
                                let r = Err::<Option<Vec<char>>, Error>(e);
                                assert(agrees(r, spec_parse_named(s).0, |n: Option<Vec<char>>| name_view(n)));
                            }
                            return Err(e);
                        },
                    }
                }
                proof {
                    assert(spec_parse_named(s) == (Ok::<Option<Seq<char>>, usize>(Some(chs@)), chars@));
                }
                Ok(Some(chs))
            },
            // silent match: make no record of it
            (Some('?'), _) => {
                chars.consume(1);
                Ok(None)
            },
            // nameless match
            _ => Ok(Some(Vec::new())),
        }
    }
}


/// What **parse** gives on the stream **s**: the unit at its front (an AND group, a special
/// character, a set or a run of plain characters), joined with what follows an OR into an Or
/// node, or an error code; and the stream after it. Nothing to read there is error 4.
/// (A successful parse always reads something, so the length tests below never fail; they make
/// the recursion visibly finite.)
pub open spec fn spec_parse(s: Seq<char>, after_or: bool) -> (Result<Shape, usize>, Seq<char>)
    decreases s.len(), 3nat,
{
    let (node, rest) = if s.len() == 0 {
        (Ok(Shape::Empty), s)
    } else if s.len() >= 2 && s[0] == '\\' && s[1] == '(' {
        spec_and_node(s.skip(2))
    } else if s.len() >= 2 && s[0] == '\\' && is_escape_code(s[1]) {
        spec_special_node(s)
    } else if s.len() >= 2 && s[0] == '\\' {
        spec_chars_node(s, after_or)
    } else if s[0] == '.' || s[0] == '$' {
        spec_special_node(s)
    } else if s[0] == '[' {
        spec_range_shape(s.drop_first())
    } else {
        spec_chars_node(s, after_or)
    };
    match node {
        Err(c) => (Err(c), rest),
        Ok(n) => if n is Empty {
            (Err(4), rest)
        } else if rest.len() >= 2 && rest[0] == '\\' && rest[1] == '|' && rest.len() <= s.len() {
            spec_or_node(rest.skip(2), n)
        } else {
            (Ok(n), rest)
        },
    }
}

/// What **OrNode::parse_node** gives on the stream **s** (after the "\|"), with **prev** the
/// unit before the OR: an Or node of **prev** and the alternatives of what follows (its own
/// alternatives, if it is an Or node), or an error code; and the stream after it.
pub open spec fn spec_or_node(s: Seq<char>, prev: Shape) -> (Result<Shape, usize>, Seq<char>)
    decreases s.len(), 4nat,
{
    let (next, rest) = spec_parse(s, true);
    match next {
        Err(c) => (Err(c), rest),
        Ok(n) => {
            let nodes = match n {
                Shape::Or { nodes, .. } => seq![prev] + nodes,
                _ => seq![prev, n],
            };
            (Ok(Shape::Or { nodes, limits: Limits::spec_default(), named: None, name_outside: false }), rest)
        },
    }
}

/// The units of an AND group from the front of **s** up to and including its closing "\)",
/// after the units **acc** read so far, or an error code (the text ends first: 1); and the
/// stream after it.
pub open spec fn spec_and_items(s: Seq<char>, acc: Seq<Shape>) -> (Result<Seq<Shape>, usize>, Seq<char>)
    decreases s.len(), 4nat,
{
    if s.len() == 0 {
        (Err(1), s)
    } else if s.len() >= 2 && s[0] == '\\' && s[1] == ')' {
        (Ok(acc), s.skip(2))
    } else {
        let (n, rest) = spec_parse(s, false);
        match n {
            Err(c) => (Err(c), rest),
            Ok(n) => if rest.len() < s.len() {
                spec_and_items(rest, acc.push(n))
            } else {
                (Err(4), rest)
            },
        }
    }
}

/// What **AndNode::parse_node** gives on the stream **s** (after the "\("): Empty for an empty
/// group, or the And node of its name, its units and the repetition count after it, or an error
/// code; and the stream after it.
pub open spec fn spec_and_node(s: Seq<char>) -> (Result<Shape, usize>, Seq<char>)
    decreases s.len(), 5nat,
{
    let (named, s1) = spec_parse_named(s);
    match named {
        Err(c) => (Err(c), s1),
        Ok(nm) => if s1.len() <= s.len() {
            let (items, s2) = spec_and_items(s1, Seq::empty());
            match items {
                Err(c) => (Err(c), s2),
                Ok(nodes) => if nodes.len() == 0 {
                    (Ok(Shape::Empty), s2)
                } else {
                    let (l, s3) = spec_parse_limits(s2);
                    match l {
                        Err(c) => (Err(c), s3),
                        Ok(l) => (Ok(Shape::And { nodes, limits: l, named: nm, anchor: false, name_outside: false }), s3),
                    }
                },
            }
        } else {
            (Err(2), s1)
        },
    }
}

impl AndNode {
    /// Recursively parses an AND node from the front of the Peekable stream (the opening "\(" has
    /// been read). It gives **Empty** for a group with nothing in it.
    pub fn parse_node(chars: &mut Peekable) -> (r: Result<Node, Error>)
        ensures
            r matches Err(e) ==> crate::parse::parse_error_code(e.code),
            r matches Ok(n) ==> n is Empty || (n is And && node_unresolved(n) && !n->And_0.anchor && !n->And_0.name_outside),
            r is Ok ==> final(chars)@.len() < old(chars)@.len(),
            agrees(r, spec_and_node(old(chars)@).0, |n: Node| shape(n)),
            r is Ok ==> final(chars)@ == spec_and_node(old(chars)@).1,
            r matches Err(e) ==> 1 <= e.code <= 9,
            r matches Ok(n) ==> def_free(n),
        decreases old(chars)@.len(), 2nat,
    {
        let ghost s = chars@;
        let named = match AndNode::parse_named(chars) {
            Ok(x) => x,
            Err(e) => {
                return Err(e);
            },
        };
        let ghost s1 = chars@;
        let ghost target = spec_and_items(s1, Seq::empty());
        let mut nodes: Vec<Node> = Vec::new();
        proof {
            assert(shapes(nodes@) =~= Seq::<Shape>::empty());
        }
        loop
            invariant_except_break
                spec_and_items(chars@, shapes(nodes@)) == target,
            invariant
                chars@.len() <= s1.len(),
                s1.len() <= s.len(),
                s == old(chars)@,
                forall|k: int| 0 <= k < nodes.len() ==> #[trigger] node_unresolved(nodes@[k]),
                forall|k: int| 0 <= k < nodes.len() ==> #[trigger] def_free(nodes@[k]),
                spec_parse_named(s).0 == Ok::<Option<Seq<char>>, usize>(name_view(named)),
                s1 == spec_parse_named(s).1,
                target == spec_and_items(s1, Seq::empty()),
            ensures
                chars@.len() >= 2,
                target == (Ok::<Seq<Shape>, usize>(shapes(nodes@)), chars@.skip(2)),
            decreases chars@.len(),
        {
            let ghost before = chars@;
            match chars.peek_2() {
                (None, _) => {
                    proof {
                        assert(spec_and_node(s).0 == Err::<Shape, usize>(1));
                    }
                    return Err(Error::make(1, "Unterminated AND node"));
                },
                (Some('\\'), Some(')')) => {
                    break;
                },
                _ => {},
            }
            match parse(chars, false) {
                Ok(n) => {
                    proof {
                        lemma_shapes_push(nodes@, n);
                    }
                    nodes.push(n);
                },
                Err(e) => {
                    proof {
                        assert(spec_and_node(s).0 == Err::<Shape, usize>(e.code));
                    }
                    return Err(e);
                },
            }
        }
        // pop off terminating chars
        chars.consume(2);
        if nodes.len() == 0 {
            Ok(Node::Empty)
        } else {
            let limits = match Limits::parse(chars) {
                Ok(l) => l,
                Err(e) => {
                    return Err(e);
                },
            };
            let a = AndNode { nodes, limits, named, anchor: false, name_outside: false };
            proof {
                lemma_and_children(a);
                lemma_and_shape(a);
                lemma_all_def_free(a.nodes@);
            }
            Ok(Node::And(a))
        }
    }
}

/// The shape of an And node.
proof fn lemma_and_shape(a: AndNode)
    ensures
        shape(Node::And(a)) == (Shape::And {
            nodes: shapes(a.nodes@),
            limits: a.limits,
            named: name_view(a.named),
            anchor: a.anchor,
            name_outside: a.name_outside,
        }),
{
}

/// The shape of an Or node.
proof fn lemma_or_shape(o: OrNode)
    ensures
        shape(Node::Or(o)) == (Shape::Or { nodes: shapes(o.nodes@), limits: o.limits, named: name_view(o.named), name_outside: o.name_outside }),
{
}

impl OrNode {
    /// Recursively parses an OR node from the front of the Peekable stream (the "\|" has been read).
    /// The node before the "\|" is the first alternative; if the node after it is an OR node
    /// its alternatives are added, otherwise the node itself is.
    pub fn parse_node(chars: &mut Peekable, preceding_node: Node) -> (r: Result<Node, Error>)
        requires
            node_unresolved(preceding_node),
        ensures
            r matches Err(e) ==> crate::parse::parse_error_code(e.code),
            r matches Ok(n) ==> n is Or && node_unresolved(n) && n->Or_0.named is None && !n->Or_0.name_outside,
            r is Ok ==> final(chars)@.len() < old(chars)@.len(),
            agrees(r, spec_or_node(old(chars)@, shape(preceding_node)).0, |n: Node| shape(n)),
            r is Ok ==> final(chars)@ == spec_or_node(old(chars)@, shape(preceding_node)).1,
            r matches Err(e) ==> 1 <= e.code <= 9,
            def_free(preceding_node) ==> (r matches Ok(n) ==> def_free(n)),
        decreases old(chars)@.len(), 2nat,
    {
        let ghost s = chars@;
        let ghost prev = shape(preceding_node);
        let mut nodes: Vec<Node> = Vec::new();
        nodes.push(preceding_node);
        proof {
            lemma_shapes(nodes@);
            assert(shapes(nodes@) =~= seq![prev]);
        }
        let next = match parse(chars, true) {
            Ok(n) => n,
            Err(e) => {
                return Err(e);
            },
        };
        proof {
            lemma_shape_kind(next);
        }
        match next {
            Node::Or(mut or_node) => {
                proof {
                    lemma_or_children(or_node);
                    lemma_or_shape(or_node);
                }
                let ghost first = nodes@;
                let ghost more = or_node.nodes@;
                nodes.append(&mut or_node.nodes);
                proof {
                    assert(nodes@ =~= first + more);
                    lemma_shapes_add(first, more);
                    lemma_all_def_free(more);
                    assert forall|k: int| 0 <= k < nodes.len() implies #[trigger] node_unresolved(nodes@[k]) && (def_free(preceding_node) ==> def_free(nodes@[k])) by {
                        if k >= 1 {
                            assert(nodes@[k] == more[k - 1]);
                        }
                    }
                }
            },
            next_node => {
                proof {
                    lemma_shapes_push(nodes@, next_node);
                    assert(seq![prev].push(shape(next_node)) =~= seq![prev, shape(next_node)]);
                }
                nodes.push(next_node);
            },
        }
        let o = OrNode { nodes, limits: Limits::default(), named: None, name_outside: false };
        proof {
            lemma_or_children(o);
            lemma_or_shape(o);
            lemma_all_def_free(o.nodes@);
        }
        Ok(Node::Or(o))
    }
}

/// The shape of a Range node.
proof fn lemma_range_shape(n: Node)
    requires
        n is Range,
    ensures
        shape(n) == (Shape::Range {
            not: n->Range_0.not,
            chars: n->Range_0.chars@,
            ranges: n->Range_0.ranges@,
            specials: n->Range_0.specials@,
            limits: n->Range_0.limits,
            named: name_view(n->Range_0.named),
            name_outside: n->Range_0.name_outside,
        }),
{
}

/// main controller for the tree parse processing, it looks at the next few characters in the pipeline, decides what they are, and
/// distributes them to the proper XXXNode constructor function
pub fn parse(chars: &mut Peekable, after_or: bool) -> (r: Result<Node, Error>)
    ensures
        r matches Err(e) ==> crate::parse::parse_error_code(e.code),
        r matches Ok(n) ==> node_unresolved(n),
        r is Ok ==> final(chars)@.len() < old(chars)@.len(),
        agrees(r, spec_parse(old(chars)@, after_or).0, |n: Node| shape(n)),
        r is Ok ==> final(chars)@ == spec_parse(old(chars)@, after_or).1,
        r matches Err(e) ==> 1 <= e.code <= 9,
        r matches Ok(n) ==> def_free(n),
    decreases old(chars)@.len(), 1nat,
{
    let ghost s = chars@;
    let (c0, c1) = chars.peek_2();
    let res = match (c0, c1) {
        (None, _) => Ok(Node::Empty),
        (Some('\\'), Some('(')) => {
            chars.consume(2);
            proof {
                assert(chars@ =~= s.skip(2));
            }
            AndNode::parse_node(chars)
        },
        (Some('\\'), Some(ch1)) => {
            if is_escape_code_char(ch1) {
                SpecialNode::parse_node(chars)
            } else {
                CharsNode::parse_node(chars, after_or)
            }
        },
        (Some('.'), _) => SpecialNode::parse_node(chars),
        (Some('$'), _) => SpecialNode::parse_node(chars),
        (Some('['), _) => {
            chars.consume(1);
            proof {
                assert(chars@ =~= s.drop_first());
            }
            let rr = RangeNode::parse_node(chars);
            proof {
                if rr is Ok {
                    lemma_range_shape(rr->Ok_0);
                }
            }
            rr
        },
        (_, _) => CharsNode::parse_node(chars, after_or),
    };
    let node = match res {
        Ok(n) => n,
        Err(e) => {
            return Err(e);
        },
    };
    proof {
        lemma_shape_kind(node);
    }
    if node.is_none() {
        let p = chars.preview(6);
        return Err(Error::with_detail(4, "Parse error at \"", p.as_slice(), "\""));
    }
    proof {
        assert(chars@.len() < s.len());
    }
    let ghost rest = chars@;
    match chars.peek_2() {
        (Some('\\'), Some('|')) => {
            chars.consume(2);
            proof {
                assert(chars@ =~= rest.skip(2));
            }
            OrNode::parse_node(chars, node)
        },
        _ => Ok(node),
    }
}

/// Puts the characters **p** in front of the name in **r**.
pub open spec fn prefix_seq_name(p: Seq<char>, r: (Result<Seq<char>, usize>, Seq<char>)) -> (Result<Seq<char>, usize>, Seq<char>) {
    match r.0 {
        Ok(x) => (Ok(p + x), r.1),
        Err(e) => (Err(e), r.1),
    }
}

proof fn lemma_prefix_empty(r: (Result<Seq<char>, usize>, Seq<char>))
    ensures
        prefix_seq_name(Seq::empty(), r) == r,
{
    match r.0 {
        Ok(x) => {
            assert(Seq::<char>::empty() + x =~= x);
        },
        Err(e) => {},
    }
}

proof fn lemma_prefix_seq_ok(p: Seq<char>)
    ensures
        forall|rest: Seq<char>| #[trigger] prefix_seq_name(p, (Ok(Seq::<char>::empty()), rest)) == (Ok::<Seq<char>, usize>(p), rest),
{
    assert(p + Seq::<char>::empty() =~= p);
}

proof fn lemma_prefix_seq_err(p: Seq<char>, r: (Result<Seq<char>, usize>, Seq<char>), e: usize)
    requires
        r.0 == Err::<Seq<char>, usize>(e),
    ensures
        prefix_seq_name(p, r).0 == Err::<Seq<char>, usize>(e),
{
}

proof fn lemma_prefix_seq_step(p: Seq<char>, c: char, r: (Result<Seq<char>, usize>, Seq<char>))
    ensures
        prefix_seq_name(p, prefix_name(c, r)) == prefix_seq_name(p.push(c), r),
{
    match r.0 {
        Ok(x) => {
            assert(p + (seq![c] + x) =~= p.push(c) + x);
        },
        Err(e) => {},
    }
}

/// What a successful parse of **input** gives: nothing at all (**Empty**), or a finished AND node
/// at the root, recorded in the report without a name, anchored to the start of the text exactly
/// when the expression starts with '^'.
pub open spec fn parsed_tree(n: Node, input: Seq<char>) -> bool {
    ||| n is Empty
    ||| {
        &&& n is And
        &&& node_resolved(n)
        &&& name_view(n->And_0.named) == Some(Seq::<char>::empty())
        &&& !n->And_0.name_outside
        &&& n->And_0.anchor == (input.len() > 0 && input[0] == '^')
    }
}

/// The error codes the parsers report.
pub open spec fn parse_error_code(code: usize) -> bool {
    (1 <= code <= 9 && code != 5) || (101 <= code <= 116)
}

/// The expression without its leading '^', if it has one.
pub open spec fn strip_anchor(input: Seq<char>) -> Seq<char> {
    if input.len() > 0 && input[0] == '^' {
        input.drop_first()
    } else {
        input
    }
}

/// The root of a finished tree made from the group **g**: recorded without a name, anchored as
/// **anchor** says.
pub open spec fn root_shape(g: Shape, anchor: bool) -> Shape {
    match g {
        Shape::And { nodes, limits, .. } => Shape::And { nodes, limits, named: Some(Seq::empty()), anchor, name_outside: false },
        _ => g,
    }
}

/// What finishing the group **g** gives when the stream **rest** is left after it: Empty stays
/// Empty; otherwise characters left over are error 6, and else the root of the tree is the
/// group, named and anchored, with the definitions **dm** filled in.
pub open spec fn spec_finish(g: Shape, rest: Seq<char>, anchor: bool, dm: Map<Seq<char>, Shape>) -> Result<Shape, usize> {
    if g is Empty {
        Ok(g)
    } else if rest.len() > 0 {
        Err(6)
    } else {
        spec_subst(root_shape(g, anchor), dm, dm.dom().len(), Seq::empty())
    }
}

/// What finishing the group **g** gives when the stream **rest** is left after it and the
/// group holds no definition reference: as **spec_finish**, with nothing to fill in.
pub open spec fn spec_finish_plain(g: Shape, rest: Seq<char>, anchor: bool) -> Result<Shape, usize> {
    if g is Empty {
        Ok(g)
    } else if rest.len() > 0 {
        Err(6)
    } else {
        Ok(root_shape(g, anchor))
    }
}

/// Whether the expression starts with '^', which anchors the match to the start of the text.
pub open spec fn anchored(input: Seq<char>) -> bool {
    input.len() > 0 && input[0] == '^'
}

/// What a traditional parse of **input** gives: the expression (without a leading '^') read as
/// the body of an AND group, which ends at the first unmatched "\)". An empty group gives
/// Empty; otherwise the group is recorded without a name and anchored to the start of the text
/// exactly when the expression starts with '^', and characters left over after it are error 6.
pub open spec fn spec_parse_tree(input: Seq<char>) -> Result<Shape, usize> {
    let (r, rest) = spec_and_node(strip_anchor(input) + seq!['\\', ')']);
    match r {
        Err(c) => Err(c),
        Ok(g) => spec_finish_plain(g, rest, anchored(input)),
    }
}

/// What a parse of **input** with the alternative parser gives, with **d0** the shapes of the
/// definitions made beforehand: the expression (without a leading '^') read as the units of an
/// AND group. An empty group gives Empty; otherwise the group is recorded without a name and
/// anchored to the start of the text exactly when the expression starts with '^', characters
/// left over after it are error 6, and the definitions (those made beforehand and those the
/// expression makes, with those of the definition files it uses) are filled in. A "use(FILE)"
/// reads **files** (error code 0: left open, as for a file in the home directory).
pub open spec fn spec_alt_parse_tree(input: Seq<char>, d0: Map<Seq<char>, Shape>, files: Option<FileView>) -> Result<Shape, usize> {
    let (r, rest, made) = spec_alt_group(strip_anchor(input) + seq![' ', ')'], 104, files);
    match r {
        Err(c) => Err(c),
        Ok(g) => spec_finish(g, rest, anchored(input), with_defs(d0, made)),
    }
}

/// Finishes the tree of a parsed group: names its root (without a name), anchors it as
/// **anchor_front** says, checks that nothing follows it, and fills in the definitions.
fn finish_tree(group: Node, chars: &mut Peekable, anchor_front: bool, defs: &Defs) -> (r: Result<Node, Error>)
    requires
        defs.wf(),
        group is Empty || (group is And && node_unresolved(group) && !group->And_0.anchor),
    ensures
        r matches Ok(n) ==> n is Empty || {
            &&& n is And
            &&& node_resolved(n)
            &&& name_view(n->And_0.named) == Some(Seq::<char>::empty())
            &&& !n->And_0.name_outside
            &&& n->And_0.anchor == anchor_front
        },
        r matches Err(e) ==> e.code == 6 || e.code == 108 || e.code == 109,
        agrees(r, spec_finish(shape(group), old(chars)@, anchor_front, def_shapes(defs.entries())), |n: Node| shape(n)),
        def_free(group) ==> agrees(r, spec_finish_plain(shape(group), old(chars)@, anchor_front), |n: Node| shape(n)),
{
    let mut outer_and = group;
    proof {
        lemma_shape_kind(group);
    }
    if !outer_and.is_none() {
        if anchor_front {
            if let Node::And(a) = &mut outer_and {
                a.anchor = true;
            }
        }
        let ghost before = outer_and;
        let mut empty: Vec<char> = Vec::new();
        outer_and.set_named(Some(empty), false);
        proof {
            crate::defs::lemma_same_but_name_unresolved(before, outer_and);
            let a = group->And_0;
            let b = outer_and->And_0;
            assert(b.nodes == a.nodes);
            assert(name_view(b.named) == Some(Seq::<char>::empty()));
            assert(shape(outer_and) == root_shape(shape(group), anchor_front));
            assert(def_free(group) ==> def_free(outer_and));
        }
        let ghost at_end = chars@;
        if chars.next().is_some() {
            proof {
                assert(at_end.len() > 0);
            }
            return Err(Error::make(6, "Extra characters after parse completed (should not happen)"));
        }
        let mut nested: Vec<Vec<char>> = Vec::new();
        proof {
            assert(views(nested@) =~= Seq::<Seq<char>>::empty());
            defs.lemma_keys_len();
        }
        match outer_and.substitute_defs(&mut nested, defs) {
            Ok(()) => {},
            Err(e) => {
                return Err(e);
            },
        }
    }
    Ok(outer_and)
}

/// Main entry point for parsing a tree, with the snippet definitions and definition files of the
/// caller. The expression is wrapped in an AND group: "\(...\)" for the traditional parser,
/// "and(...)" for the alternative one (**alt_parser**). A leading '^' anchors the match to the
/// start of the text. Definitions made while parsing stay in **defs**; a "use(FILE)" whose file is
/// not in **sources** stops the parse with error 115, whose message is the file's path.
pub fn parse_tree_with(input: &str, alt_parser: bool, defs: &mut Defs, sources: &Sources) -> (r: Result<Node, Error>)
    requires
        old(defs).wf(),
        sources.wf(),
    ensures
        final(defs).wf(),
        r matches Ok(n) ==> parsed_tree(n, input@),
        r matches Err(e) ==> parse_error_code(e.code),
        !alt_parser ==> agrees(r, spec_parse_tree(input@), |n: Node| shape(n)),
        !alt_parser ==> (r matches Err(e) ==> 1 <= e.code <= 9),
        alt_parser && !use_met(spec_alt_parse_tree(input@, def_shapes(old(defs).entries()), files_in_view(sources, Seq::<Vec<char>>::empty()))) ==> agrees(
            r,
            spec_alt_parse_tree(input@, def_shapes(old(defs).entries()), files_in_view(sources, Seq::<Vec<char>>::empty())),
            |n: Node| shape(n),
        ),
        alt_parser && sources.paths().len() == 0 && use_met(spec_alt_parse_tree(input@, def_shapes(old(defs).entries()), files_in_view(sources, Seq::<Vec<char>>::empty())))
            ==> (r matches Err(e) && use_error(e.code)),
{
    let all = crate::text::str_to_chars(input);
    let anchor_front = all.len() > 0 && all[0] == '^';
    proof {
        assert(anchor_front == (input@.len() > 0 && input@[0] == '^'));
    }
    let mut body: Vec<char> = Vec::new();
    let start: usize = if anchor_front { 1 } else { 0 };
    let mut i: usize = start;
    while i < all.len()
        invariant
            start <= i <= all.len(),
            all@ == input@,
            body@ == all@.subrange(start as int, i as int),
        decreases all.len() - i,
    {
        body.push(all[i]);
        i = i + 1;
        proof {
            assert(body@ =~= all@.subrange(start as int, i as int));
        }
    }
    proof {
        assert(body@ =~= strip_anchor(input@));
    }
    if alt_parser {
        parse_alt_body(body, anchor_front, defs, sources, Ghost(input@))
    } else {
        parse_body(body, anchor_front, defs, Ghost(input@))
    }
}

/// Parses the expression **body** (without its leading '^') with the traditional parser.
fn parse_body(body: Vec<char>, anchor_front: bool, defs: &Defs, Ghost(input): Ghost<Seq<char>>) -> (r: Result<Node, Error>)
    requires
        defs.wf(),
        body@ == strip_anchor(input),
        anchor_front == anchored(input),
    ensures
        r matches Ok(n) ==> n is Empty || {
            &&& n is And
            &&& node_resolved(n)
            &&& name_view(n->And_0.named) == Some(Seq::<char>::empty())
            &&& !n->And_0.name_outside
            &&& n->And_0.anchor == anchor_front
        },
        r matches Err(e) ==> 1 <= e.code <= 9 && parse_error_code(e.code),
        agrees(r, spec_parse_tree(input), |n: Node| shape(n)),
{
    let mut chars = Peekable::from_chars(body);
    chars.push_str("\\)");
    proof {
        reveal_strlit("\\)");
        assert(chars@ =~= body@ + seq!['\\', ')']);
    }
    let group = match AndNode::parse_node(&mut chars) {
        Ok(n) => n,
        Err(e) => {
            return Err(e);
        },
    };
    finish_tree(group, &mut chars, anchor_front, defs)
}

/// Parses the expression **body** (without its leading '^') with the alternative parser.
fn parse_alt_body(body: Vec<char>, anchor_front: bool, defs: &mut Defs, sources: &Sources, Ghost(input): Ghost<Seq<char>>) -> (r: Result<Node, Error>)
    requires
        old(defs).wf(),
        sources.wf(),
        body@ == strip_anchor(input),
        anchor_front == anchored(input),
    ensures
        final(defs).wf(),
        r matches Ok(n) ==> n is Empty || {
            &&& n is And
            &&& node_resolved(n)
            &&& name_view(n->And_0.named) == Some(Seq::<char>::empty())
            &&& !n->And_0.name_outside
            &&& n->And_0.anchor == anchor_front
        },
        r matches Err(e) ==> parse_error_code(e.code),
        !use_met(spec_alt_parse_tree(input, def_shapes(old(defs).entries()), files_in_view(sources, Seq::<Vec<char>>::empty()))) ==> agrees(
            r,
            spec_alt_parse_tree(input, def_shapes(old(defs).entries()), files_in_view(sources, Seq::<Vec<char>>::empty())),
            |n: Node| shape(n),
        ),
        sources.paths().len() == 0 && use_met(spec_alt_parse_tree(input, def_shapes(old(defs).entries()), files_in_view(sources, Seq::<Vec<char>>::empty())))
            ==> (r matches Err(e) && use_error(e.code)),
{
    let mut chars = Peekable::from_chars(body);
    chars.push_str(" )");
    let mut loading: Vec<Vec<char>> = Vec::new();
    proof {
        assert(views(loading@) =~= Seq::<Seq<char>>::empty());
        reveal_strlit(" )");
        assert(chars@ =~= body@ + seq![' ', ')']);
    }
    let group = match AndNode::alt_parse_node(&mut chars, defs, sources, &mut loading) {
        Ok(n) => n,
        Err(e) => {
            return Err(e);
        },
    };
    finish_tree(group, &mut chars, anchor_front, defs)
}

/// The tree **r** with its root anchored to the start of the text.
pub open spec fn with_root_anchor(r: Result<Shape, usize>) -> Result<Shape, usize> {
    match r {
        Ok(Shape::And { nodes, limits, named, anchor: _, name_outside }) => Ok(Shape::And { nodes, limits, named, anchor: true, name_outside }),
        _ => r,
    }
}

/// A leading '^' only anchors the match: the tree of '^' followed by an expression **s** is the
/// tree of **s** with its root anchored, for both parsers.
pub proof fn law_caret_only_anchors(s: Seq<char>, d0: Map<Seq<char>, Shape>, files: Option<FileView>)
    requires
        !anchored(s),
    ensures
        spec_parse_tree(seq!['^'] + s) == with_root_anchor(spec_parse_tree(s)),
        spec_alt_parse_tree(seq!['^'] + s, d0, files) == with_root_anchor(spec_alt_parse_tree(s, d0, files)),
{
    let t = seq!['^'] + s;
    assert(t.drop_first() =~= s);
    assert(strip_anchor(t) == strip_anchor(s));
}

/// The root of a tree that the alternative parser makes has the default limits: the expression
/// is read as the units of an AND group, and a count after the last unit belongs to that unit.
pub proof fn law_alt_root_limits(s: Seq<char>, d0: Map<Seq<char>, Shape>, files: Option<FileView>)
    ensures
        spec_alt_parse_tree(s, d0, files) matches Ok(Shape::And { limits, .. }) ==> limits == Limits::spec_default(),
{
}

/// The definition files of a parse that is given none.
pub open spec fn no_files() -> Option<FileView> {
    Some(FileView { texts: Map::empty(), loading: Seq::empty(), depth: 0 })
}

/// A parse that is given no definition file: a file that "use(FILE)" asks for is an error in
/// reading it (114) rather than a file not given (115).
pub open spec fn file_not_read(r: Result<Shape, usize>) -> Result<Shape, usize> {
    if r == Err::<Shape, usize>(115) { Err(114) } else { r }
}

/// Main entry point for parsing a tree: like **parse_tree_with**, with no definitions made
/// beforehand and no definition files read; a "use(FILE)" is then an error 114, reading the file.
#[verifier::rlimit(100)]
pub fn parse_tree(input: &str, alt_parser: bool) -> (r: Result<Node, Error>)
    ensures
        r matches Ok(n) ==> parsed_tree(n, input@),
        r matches Err(e) ==> parse_error_code(e.code) && e.code != 115,
        !alt_parser ==> agrees(r, spec_parse_tree(input@), |n: Node| shape(n)),
        alt_parser && !use_met(spec_alt_parse_tree(input@, Map::empty(), no_files())) ==> agrees(
            r,
            file_not_read(spec_alt_parse_tree(input@, Map::empty(), no_files())),
            |n: Node| shape(n),
        ),
        alt_parser && use_met(spec_alt_parse_tree(input@, Map::empty(), no_files())) ==> (r matches Err(e) && (e.code == 113 || e.code == 114)),
{
    let mut defs = Defs::new();
    let sources = Sources::new();
    proof {
        assert(def_shapes(defs.entries()) =~= Map::<Seq<char>, Shape>::empty());
        assert forall|p: Seq<char>| !source_files(&sources).dom().contains(p) by {
            sources.lemma_entry(p);
        }
        assert(source_files(&sources) =~= Map::<Seq<char>, Result<Seq<char>, Seq<char>>>::empty());
        assert(crate::defs::views(Seq::<Vec<char>>::empty()) =~= Seq::<Seq<char>>::empty());
        assert(files_in_view(&sources, Seq::<Vec<char>>::empty()) == no_files());
    }
    match parse_tree_with(input, alt_parser, &mut defs, &sources) {
        Ok(n) => Ok(n),
        Err(e) => {
            if e.code == 115 {
                let detail = crate::text::str_to_chars(e.msg.as_str());
                Err(Error::with_detail(114, "Error reading def file ", detail.as_slice(), ": not available"))
            } else {
                Err(e)
            }
        },
    }
}

/// Reading a group name keeps the last character of the stream.
proof fn lemma_group_name_keeps(s: Seq<char>)
    ensures
        keeps_last(spec_group_name(s).1, s),
    decreases s.len(),
{
    if s.len() == 0 {
    } else if s[0] == '>' || (s[0] == '\\' && s.len() > 1 && s[1] == ')') {
        lemma_keeps_first(s);
    } else {
        lemma_group_name_keeps(s.drop_first());
        lemma_keeps_first(s);
        lemma_keeps_trans(spec_group_name(s.drop_first()).1, s.drop_first(), s);
    }
}

/// Reading the name of a group keeps the last character of the stream.
proof fn lemma_named_keeps(s: Seq<char>)
    ensures
        keeps_last(spec_parse_named(s).1, s),
{
    if s.len() >= 2 && s[0] == '?' && s[1] == '<' {
        lemma_group_name_keeps(s.skip(2));
        lemma_keeps_skip(s, 2);
        lemma_keeps_trans(spec_group_name(s.skip(2)).1, s.skip(2), s);
    } else if s.len() >= 1 && s[0] == '?' {
        lemma_keeps_first(s);
    }
}

/// Reading a run of plain characters keeps the last character of the stream.
proof fn lemma_chars_run_keeps(s: Seq<char>, acc: Seq<char>, after_or: bool)
    ensures
        keeps_last(spec_chars_run(s, acc, after_or).1, s),
    decreases s.len(),
{
    if !run_ends(s) {
        let (c, rest) = run_take(s);
        if starts_escape(s) {
            lemma_keeps_skip(s, 2);
        } else {
            lemma_keeps_first(s);
        }
        if !after_or {
            lemma_chars_run_keeps(rest, acc.push(c), after_or);
            lemma_keeps_trans(spec_chars_run(rest, acc.push(c), after_or).1, rest, s);
        }
    }
}

/// Reading a Chars node keeps the last character of the stream: a character handed back goes
/// in front of at least two others.
proof fn lemma_chars_node_keeps(s: Seq<char>, after_or: bool)
    ensures
        keeps_last(spec_chars_node(s, after_or).1, s),
{
    let (nc, s1) = case_prefix(s);
    if s.len() >= 2 && s[0] == '\\' && (s[1] == 'c' || s[1] == 'C') {
        lemma_keeps_skip(s, 2);
    }
    let (run, s2) = spec_chars_run(s1, Seq::empty(), after_or);
    lemma_chars_run_keeps(s1, Seq::empty(), after_or);
    lemma_keeps_trans(s2, s1, s);
    if run.len() == 1 {
        lemma_limits_keeps(s2);
        lemma_keeps_trans(spec_parse_limits(s2).1, s2, s);
    } else if run.len() > 1 && binds_last(s2) {
        let back = if nc { seq!['\\', 'c', run.last()] } else { seq![run.last()] };
        assert((back + s2).last() == s2.last());
    }
}

/// Reading a Special node keeps the last character of the stream.
proof fn lemma_special_node_keeps(s: Seq<char>)
    requires
        s.len() > 0,
        s[0] == '\\' ==> s.len() >= 2,
    ensures
        keeps_last(spec_special_node(s).1, s),
{
    let (code, r) = spec_special_code(s);
    if s[0] == '\\' {
        lemma_keeps_skip(s, 2);
    } else {
        lemma_keeps_first(s);
    }
    lemma_limits_keeps(r);
    lemma_keeps_trans(spec_parse_limits(r).1, r, s);
}

/// Reading the body of a set keeps the last character of the stream.
proof fn lemma_set_body_keeps(s: Seq<char>, acc: (Seq<char>, Seq<Range>, Seq<char>))
    ensures
        keeps_last(spec_set_body(s, acc).1, s),
    decreases s.len(),
{
    if s.len() == 0 {
    } else if s[0] == ']' {
        lemma_keeps_first(s);
    } else if s[0] == '\\' && s.len() >= 2 {
        let acc2 = if set_special(s[1]) { (acc.0, acc.1, acc.2.push(s[1])) } else { (acc.0.push(s[1]), acc.1, acc.2) };
        lemma_set_body_step(s, 2, acc2);
    } else if s.len() >= 3 && s[1] == '-' && s[2] == ']' {
        lemma_set_body_step(s, 2, (acc.0.push(s[0]).push('-'), acc.1, acc.2));
    } else if s.len() >= 3 && s[1] == '-' {
        let r = Range { from: s[0], to: s[2] };
        lemma_set_range_step(s, acc, r);
        lemma_set_body_step(s, 3, (acc.0, acc.1.push(r), acc.2));
    } else {
        assert(s.skip(1) =~= s.drop_first());
        lemma_set_body_step(s, 1, (acc.0.push(s[0]), acc.1, acc.2));
    }
}

/// A range "x-y" in a set is read as the range from **r.from** to **r.to**.
proof fn lemma_set_range_step(s: Seq<char>, acc: (Seq<char>, Seq<Range>, Seq<char>), r: Range)
    requires
        s.len() >= 3,
        s[0] != ']',
        s[0] != '\\',
        s[1] == '-',
        s[2] != ']',
        r.from == s[0],
        r.to == s[2],
    ensures
        spec_set_body(s, acc).1 == spec_set_body(s.skip(3), (acc.0, acc.1.push(r), acc.2)).1,
{
}

/// **lemma_set_body_keeps** after the first **k** characters.
proof fn lemma_set_body_step(s: Seq<char>, k: int, acc: (Seq<char>, Seq<Range>, Seq<char>))
    requires
        1 <= k <= s.len(),
    ensures
        keeps_last(spec_set_body(s.skip(k), acc).1, s),
    decreases s.len(), 0nat,
{
    lemma_keeps_skip(s, k);
    lemma_set_body_keeps(s.skip(k), acc);
    lemma_keeps_trans(spec_set_body(s.skip(k), acc).1, s.skip(k), s);
}

/// Reading a Range node keeps the last character of the stream.
proof fn lemma_range_keeps(s: Seq<char>)
    ensures
        keeps_last(spec_range_shape(s).1, s),
{
    let not = s.len() > 0 && s[0] == '^';
    let s1 = if not { s.drop_first() } else { s };
    if not {
        lemma_keeps_first(s);
    }
    let e: (Seq<char>, Seq<Range>, Seq<char>) = (Seq::empty(), Seq::empty(), Seq::empty());
    lemma_set_body_keeps(s1, e);
    let r = spec_set_body(s1, e).1;
    lemma_keeps_trans(r, s1, s);
    lemma_limits_keeps(r);
    lemma_keeps_trans(spec_parse_limits(r).1, r, s);
}

/// A unit read by the traditional parser keeps the last character of the stream.
proof fn lemma_parse_keeps(s: Seq<char>, after_or: bool)
    ensures
        spec_parse(s, after_or).0 is Ok ==> keeps_last(spec_parse(s, after_or).1, s),
    decreases s.len(), 3nat,
{
    let (node, rest) = if s.len() == 0 {
        (Ok(Shape::Empty), s)
    } else if s.len() >= 2 && s[0] == '\\' && s[1] == '(' {
        spec_and_node(s.skip(2))
    } else if s.len() >= 2 && s[0] == '\\' && is_escape_code(s[1]) {
        spec_special_node(s)
    } else if s.len() >= 2 && s[0] == '\\' {
        spec_chars_node(s, after_or)
    } else if s[0] == '.' || s[0] == '$' {
        spec_special_node(s)
    } else if s[0] == '[' {
        spec_range_shape(s.drop_first())
    } else {
        spec_chars_node(s, after_or)
    };
    if s.len() == 0 {
    } else if s.len() >= 2 && s[0] == '\\' && s[1] == '(' {
        lemma_and_node_keeps(s.skip(2));
        lemma_keeps_skip(s, 2);
        if node is Ok {
            lemma_keeps_trans(rest, s.skip(2), s);
        }
    } else if s.len() >= 2 && s[0] == '\\' && is_escape_code(s[1]) {
        lemma_special_node_keeps(s);
    } else if s.len() >= 2 && s[0] == '\\' {
        lemma_chars_node_keeps(s, after_or);
    } else if s[0] == '.' || s[0] == '$' {
        lemma_special_node_keeps(s);
    } else if s[0] == '[' {
        lemma_range_keeps(s.drop_first());
        lemma_keeps_first(s);
        lemma_keeps_trans(rest, s.drop_first(), s);
    } else {
        lemma_chars_node_keeps(s, after_or);
    }
    if let Ok(n) = node {
        if !(n is Empty) && rest.len() >= 2 && rest[0] == '\\' && rest[1] == '|' && rest.len() <= s.len() {
            lemma_or_keeps(rest.skip(2), n);
            lemma_keeps_skip(rest, 2);
            if spec_or_node(rest.skip(2), n).0 is Ok {
                lemma_keeps_trans(spec_or_node(rest.skip(2), n).1, rest.skip(2), rest);
                lemma_keeps_trans(spec_or_node(rest.skip(2), n).1, rest, s);
            }
        }
    }
}

/// An OR node read by the traditional parser keeps the last character of the stream.
proof fn lemma_or_keeps(s: Seq<char>, prev: Shape)
    ensures
        spec_or_node(s, prev).0 is Ok ==> keeps_last(spec_or_node(s, prev).1, s),
    decreases s.len(), 4nat,
{
    lemma_parse_keeps(s, true);
}

/// The units of an AND group read by the traditional parser keep the last character of the
/// stream.
proof fn lemma_and_items_keeps(s: Seq<char>, acc: Seq<Shape>)
    ensures
        spec_and_items(s, acc).0 is Ok ==> keeps_last(spec_and_items(s, acc).1, s),
    decreases s.len(), 4nat,
{
    if s.len() == 0 {
    } else if s.len() >= 2 && s[0] == '\\' && s[1] == ')' {
        lemma_keeps_skip(s, 2);
    } else {
        let (n, rest) = spec_parse(s, false);
        lemma_parse_keeps(s, false);
        if let Ok(n) = n {
            if rest.len() < s.len() {
                lemma_and_items_keeps(rest, acc.push(n));
                if spec_and_items(rest, acc.push(n)).0 is Ok {
                    lemma_keeps_trans(spec_and_items(rest, acc.push(n)).1, rest, s);
                }
            }
        }
    }
}

/// An AND group read by the traditional parser keeps the last character of the stream.
proof fn lemma_and_node_keeps(s: Seq<char>)
    ensures
        spec_and_node(s).0 is Ok ==> keeps_last(spec_and_node(s).1, s),
    decreases s.len(), 5nat,
{
    let (named, s1) = spec_parse_named(s);
    lemma_named_keeps(s);
    if named is Ok && s1.len() <= s.len() {
        let (items, s2) = spec_and_items(s1, Seq::empty());
        lemma_and_items_keeps(s1, Seq::empty());
        if items is Ok {
            lemma_keeps_trans(s2, s1, s);
            lemma_limits_keeps(s2);
            lemma_keeps_trans(spec_parse_limits(s2).1, s2, s);
        }
    }
}

/// The root of a tree that the traditional parser makes has the default limits: a repetition
/// count after the last unit of the expression belongs to that unit, and one after a "\)" that
/// closes nothing is an error.
pub proof fn law_root_limits(s: Seq<char>)
    ensures
        spec_parse_tree(s) matches Ok(Shape::And { limits, .. }) ==> limits == Limits::spec_default(),
{
    let t = strip_anchor(s) + seq!['\\', ')'];
    assert(t.last() == ')');
    let (named, s1) = spec_parse_named(t);
    lemma_named_keeps(t);
    if named is Ok && s1.len() <= t.len() {
        lemma_and_items_keeps(s1, Seq::empty());
        let (items, s2) = spec_and_items(s1, Seq::empty());
        if items is Ok {
            lemma_keeps_trans(s2, s1, t);
            lemma_limits_keeps(s2);
        }
    }
}

} // verus!
