//! The parser for the alternative regular expression syntax.
//!
//! - There are kinds of search units: CHAR blocks, RANGE blocks, AND blocks, and OR blocks.
//! - Outside of blocks whitespace is ignored.
//! - Every unit can be saved in the report, with or without a name ("<NAME>" or "<>" after it),
//!   and every unit can have a repetition count.
//! - **def(NAME: ...)** defines a snippet, **get(NAME)** inserts one, **use(FILE)** reads
//!   definitions from a file.
use vstd::prelude::*;

use crate::defs::{
    def_shapes, lemma_def_shapes_insert, lemma_with_defs_add, lemma_with_defs_push, with_defs, chars_eq, contains_chars, lemma_distinct_subset_len, lemma_loading_len,
    lemma_same_but_limits_unresolved, lemma_same_but_name_unresolved, loading_ok, views, Defs,
    Sources,
};
use crate::error::{agrees, Error};
use crate::limits::Limits;
use crate::limits::spec_parse_limits;
use crate::parse::{
    case_prefix, case_string, chars_shape, is_escape_code_char, lemma_parsed_options, spec_escaped,
    spec_range_shape, spec_special_node, starts_special,
};
use crate::peekable::{first_of, is_white, lookahead, white_run, Peekable};
use crate::tree::{
    lemma_shape_named, shape_named, shape_with_name, is_escape_code, lemma_shape_kind, lemma_shapes, lemma_shapes_push, shape, shape_with_limits, shapes, Shape,
    copy_chars, lemma_and_children, lemma_or_children, name_view, node_named, node_unresolved,
    to_lowercase, AndNode, CharsNode, DefNode, Node, OrNode, RangeNode, SpecialNode,
};

verus! {

/// What the name after a unit gives: the characters up to '>' (error 110 if the text ends
/// first), and the stream after the '>'.
pub open spec fn spec_angle_name(s: Seq<char>) -> (Result<Seq<char>, usize>, Seq<char>)
    decreases s.len(),
{
    if s.len() == 0 {
        (Err(110), s)
    } else if s[0] == '>' {
        (Ok(Seq::empty()), s.drop_first())
    } else {
        match spec_angle_name(s.drop_first()) {
            (Ok(x), rest) => (Ok(seq![s[0]] + x), rest),
            (Err(e), rest) => (Err(e), rest),
        }
    }
}

/// What **alt_parse_named** gives: no name unless the stream starts with '<', otherwise the
/// name up to '>'.
pub open spec fn spec_alt_named(s: Seq<char>) -> (Result<Option<Seq<char>>, usize>, Seq<char>) {
    if s.len() == 0 || s[0] != '<' {
        (Ok(None), s)
    } else {
        match spec_angle_name(s.drop_first()) {
            (Ok(x), rest) => (Ok(Some(x)), rest),
            (Err(e), rest) => (Err(e), rest),
        }
    }
}

/// Whether **ch** may be part of a definition name (or, with **file**, of a file name).
pub open spec fn name_char(ch: char, file: bool) -> bool {
    ('a' <= ch && ch <= 'z') || ('A' <= ch && ch <= 'Z') || ('0' <= ch && ch <= '9') || ch == '_' || ch == '-'
        || ch == '$' || ch == '#' || ch == '.' || (file && (ch == '/' || ch == '~'))
}

/// The number of leading name characters of **s**.
pub open spec fn name_run(s: Seq<char>, file: bool) -> nat
    decreases s.len(),
{
    if s.len() > 0 && name_char(s[0], file) {
        1 + name_run(s.drop_first(), file)
    } else {
        0
    }
}

/// What **Defs::name_from_stream** gives: after leading whitespace, the longest run of name
/// characters, and the stream after it with its leading whitespace skipped too.
pub open spec fn spec_name_from_stream(s: Seq<char>, file: bool) -> (Seq<char>, Seq<char>) {
    let s1 = s.skip(white_run(s) as int);
    let k = name_run(s1, file);
    let s2 = s1.skip(k as int);
    (s1.take(k as int), s2.skip(white_run(s2) as int))
}

/// A run of name characters is no longer than the sequence.
proof fn lemma_name_run_le(s: Seq<char>, file: bool)
    ensures
        name_run(s, file) <= s.len(),
    decreases s.len(),
{
    if s.len() > 0 && name_char(s[0], file) {
        lemma_name_run_le(s.drop_first(), file);
    }
}

/// A character listed as allowed in a definition name: an ASCII letter (code points 0x41 to 0x5A
/// and 0x61 to 0x7A), an ASCII decimal digit (0x30 to 0x39), or one of "_-$#."; in a file name
/// also '/' and '~'.
pub open spec fn listed_name_char(ch: char, file: bool) -> bool {
    ||| 0x41 <= (ch as int) <= 0x5a
    ||| 0x61 <= (ch as int) <= 0x7a
    ||| 0x30 <= (ch as int) <= 0x39
    ||| seq!['_', '-', '$', '#', '.'].contains(ch)
    ||| file && seq!['/', '~'].contains(ch)
}

/// The characters a name is read from are exactly the listed ones.
proof fn lemma_name_char_listed(ch: char, file: bool)
    ensures
        name_char(ch, file) <==> listed_name_char(ch, file),
{
    let p = seq!['_', '-', '$', '#', '.'];
    let f = seq!['/', '~'];
    if p.contains(ch) {
        let i = choose|i: int| 0 <= i < p.len() && p[i] == ch;
        assert(i == 0 || i == 1 || i == 2 || i == 3 || i == 4);
    }
    if ch == '_' { assert(p[0] == ch); }
    if ch == '-' { assert(p[1] == ch); }
    if ch == '$' { assert(p[2] == ch); }
    if ch == '#' { assert(p[3] == ch); }
    if ch == '.' { assert(p[4] == ch); }
    if f.contains(ch) {
        let i = choose|i: int| 0 <= i < f.len() && f[i] == ch;
        assert(i == 0 || i == 1);
    }
    if ch == '/' { assert(f[0] == ch); }
    if ch == '~' { assert(f[1] == ch); }
}

/// The run of name characters at the front of **t + r**, when all of **t** is listed and **r**
/// does not start with a listed character, is **t**.
proof fn lemma_name_run_whole(t: Seq<char>, r: Seq<char>, file: bool)
    requires
        forall|i: int| 0 <= i < t.len() ==> listed_name_char(#[trigger] t[i], file),
        r.len() == 0 || !listed_name_char(r[0], file),
    ensures
        name_run(t + r, file) == t.len(),
    decreases t.len(),
{
    if t.len() == 0 {
        assert(t + r =~= r);
        if r.len() > 0 {
            lemma_name_char_listed(r[0], file);
        }
    } else {
        lemma_name_char_listed(t[0], file);
        assert((t + r)[0] == t[0]);
        assert((t + r).drop_first() =~= t.drop_first() + r);
        assert forall|i: int| 0 <= i < t.drop_first().len() implies listed_name_char(#[trigger] t.drop_first()[i], file) by {
            assert(t.drop_first()[i] == t[i + 1]);
        }
        lemma_name_run_whole(t.drop_first(), r, file);
    }
}

/// A definition name is read whole: when **t** is made of listed name characters (ASCII
/// letters and digits, "_-$#.", and '/' and '~' in a file name) and what follows it does not
/// start with one, reading a name from **t** followed by the rest gives **t** (so "n1" is read
/// as "n1"); and whatever a name read is, it is made of listed name characters alone.
pub proof fn law_name_read_whole(t: Seq<char>, r: Seq<char>, file: bool)
    requires
        forall|i: int| 0 <= i < t.len() ==> listed_name_char(#[trigger] t[i], file),
        r.len() == 0 || !listed_name_char(r[0], file),
        t.len() > 0 || r.len() == 0 || !is_white(r[0]),
    ensures
        spec_name_from_stream(t + r, file).0 == t,
        forall|s: Seq<char>, i: int| 0 <= i < spec_name_from_stream(s, file).0.len()
            ==> listed_name_char(#[trigger] spec_name_from_stream(s, file).0[i], file),
{
    let s = t + r;
    if t.len() > 0 {
        assert(s[0] == t[0]);
        lemma_name_char_listed(t[0], file);
    } else {
        assert(s =~= r);
    }
    assert(white_run(s) == 0);
    assert(s.skip(0) =~= s);
    lemma_name_run_whole(t, r, file);
    assert(s.take(t.len() as int) =~= t);
    assert forall|s: Seq<char>, i: int| 0 <= i < spec_name_from_stream(s, file).0.len()
        implies listed_name_char(#[trigger] spec_name_from_stream(s, file).0[i], file) by {
        let s1 = s.skip(white_run(s) as int);
        crate::peekable::lemma_white_run_le(s);
        lemma_name_run_le(s1, file);
        lemma_name_run_chars(s1, file, i);
        lemma_name_char_listed(s1[i], file);
    }
}

/// The characters of a run of name characters are name characters.
proof fn lemma_name_run_chars(s: Seq<char>, file: bool, i: int)
    requires
        0 <= i < name_run(s, file),
    ensures
        i < s.len(),
        name_char(s[i], file),
    decreases s.len(),
{
    lemma_name_run_le(s, file);
    if i > 0 {
        lemma_name_run_chars(s.drop_first(), file, i - 1);
    }
}

/// Reading a name never lengthens the stream.
proof fn lemma_name_from_stream_len(s: Seq<char>, file: bool)
    ensures
        spec_name_from_stream(s, file).1.len() <= s.len(),
{
    let s1 = s.skip(white_run(s) as int);
    crate::peekable::lemma_white_run_le(s);
    lemma_name_run_le(s1, file);
    let s2 = s1.skip(name_run(s1, file) as int);
    crate::peekable::lemma_white_run_le(s2);
}

/// The parse state of the alternative parser is consistent.
pub open spec fn alt_ok(defs: &Defs, sources: &Sources, loading: Seq<Vec<char>>) -> bool {
    &&& defs.wf()
    &&& sources.wf()
    &&& loading_ok(sources, loading)
}

/// The file name "~/.regexp" that stands for an empty name in "use()".
pub open spec fn default_defs_file() -> Seq<char> {
    seq!['~', '/', '.', 'r', 'e', 'g', 'e', 'x', 'p']
}

/// The file name that a "use(...)" names: the name read, or "~/.regexp" for none.
pub open spec fn use_file_name(s: Seq<char>) -> Seq<char> {
    let name = spec_name_from_stream(s, true).0;
    if name.len() == 0 {
        default_defs_file()
    } else {
        name
    }
}

/// Whether a file name starts with "~/", which stands for the home directory.
pub open spec fn in_home(name: Seq<char>) -> bool {
    name.len() >= 2 && name[0] == '~' && name[1] == '/'
}

/// Whether **p** is the path of the file name **name**: the name itself, or, for a name that
/// starts with "~/", a directory followed by the name without its '~'.
pub open spec fn path_of(name: Seq<char>, p: Seq<char>) -> bool {
    if in_home(name) {
        exists|home: Seq<char>| p == home + name.skip(1)
    } else {
        p == name
    }
}

/// Whether the definitions **after** are those **before** with the definitions that reading the
/// definition file text **t** makes (when that reading meets no "use(FILE)").
pub open spec fn loaded_from(t: Seq<char>, before: Map<Seq<char>, Shape>, after: Map<Seq<char>, Shape>, files: Option<FileView>) -> bool {
    !use_met_file(spec_load_file(t, Seq::empty(), files).0) ==> after == with_defs(before, spec_load_file(t, Seq::empty(), files).1)
}

/// Whether the file name of a "use(...)" is followed, after whitespace, by its ')'.
pub open spec fn use_statement_ok(s: Seq<char>) -> bool {
    first_of(skip_white(spec_name_from_stream(s, true).1)) == Some(')')
}

/// Whether **ch** is a name character.
fn is_name_char(ch: char, file: bool) -> (r: bool)
    ensures
        r == name_char(ch, file),
{
    ('a' <= ch && ch <= 'z') || ('A' <= ch && ch <= 'Z') || ('0' <= ch && ch <= '9') || ch == '_' || ch == '-'
        || ch == '$' || ch == '#' || ch == '.' || (file && (ch == '/' || ch == '~'))
}

/// Parses out an optional unit name from the input stream
pub fn alt_parse_named(chars: &mut Peekable) -> (r: Result<Option<Vec<char>>, Error>)
    ensures
        r matches Err(e) ==> crate::parse::parse_error_code(e.code),
        agrees(r, spec_alt_named(old(chars)@).0, |n: Option<Vec<char>>| name_view(n)),
        r is Ok ==> final(chars)@ == spec_alt_named(old(chars)@).1,
        r matches Err(e) ==> e.code == 110,
        r is Ok ==> final(chars)@.len() <= old(chars)@.len(),
{
    let ghost s = chars@;
    if chars.peek() != Some('<') {
        return Ok(None);
    }
    chars.consume(1);
    let ghost t = chars@;
    let mut chs: Vec<char> = Vec::new();
    let ghost mut i: int = 0;
    proof {
        assert(t =~= s.drop_first());
        assert(t.skip(0) =~= t);
        assert(chs@ =~= t.take(0));
        lemma_angle_prefix(Seq::empty(), t);
    }
    loop
        invariant_except_break
            0 <= i <= t.len(),
            chars@ == t.skip(i),
            chs@ == t.take(i),
            spec_angle_name(t) == angle_prefixed(chs@, spec_angle_name(t.skip(i))),
        invariant
            t == s.drop_first(),
            s.len() > 0 && s[0] == '<',
            s == old(chars)@,
            chars@.len() <= s.len(),
        ensures
            spec_angle_name(t) == (Ok::<Seq<char>, usize>(chs@), chars@),
        decreases t.len() - i,
    {
        let ghost before = chars@;
        match chars.next() {
            Some('>') => {
                proof {
                    assert(spec_angle_name(before) == (Ok::<Seq<char>, usize>(Seq::<char>::empty()), before.drop_first()));
                    assert(chs@ + Seq::<char>::empty() =~= chs@);
                }
                break;
            },
            Some(ch) => {
                proof {
                    lemma_angle_step(chs@, ch, before);
                    assert(before.drop_first() =~= t.skip(i + 1));
                    assert(t.take(i + 1) =~= t.take(i).push(ch));
                    i = i + 1;
                }
                chs.push(ch);
            },
            None => {
                let e = Error::make(110, "error getting name in AND definition");
                proof {
                    assert(spec_angle_name(before).0 == Err::<Seq<char>, usize>(110));
                    assert(spec_alt_named(s).0 == Err::<Option<Seq<char>>, usize>(110));
                    let r = Err::<Option<Vec<char>>, Error>(e);
                    assert(agrees(r, spec_alt_named(s).0, |n: Option<Vec<char>>| name_view(n)));
                }
                return Err(e);
            },
        }
    }
    Ok(Some(chs))
}

/// Puts **p** in front of the name in **r**.
pub open spec fn angle_prefixed(p: Seq<char>, r: (Result<Seq<char>, usize>, Seq<char>)) -> (Result<Seq<char>, usize>, Seq<char>) {
    match r.0 {
        Ok(x) => (Ok(p + x), r.1),
        Err(e) => (Err(e), r.1),
    }
}

proof fn lemma_angle_prefix(p: Seq<char>, t: Seq<char>)
    requires
        p.len() == 0,
    ensures
        angle_prefixed(p, spec_angle_name(t)) == spec_angle_name(t),
{
    match spec_angle_name(t).0 {
        Ok(x) => {
            assert(p + x =~= x);
        },
        Err(e) => {},
    }
}

proof fn lemma_angle_step(p: Seq<char>, c: char, before: Seq<char>)
    requires
        before.len() > 0,
        before[0] == c,
        c != '>',
    ensures
        angle_prefixed(p, spec_angle_name(before)) == angle_prefixed(p.push(c), spec_angle_name(before.drop_first())),
{
    match spec_angle_name(before.drop_first()).0 {
        Ok(x) => {
            assert(p + (seq![c] + x) =~= p.push(c) + x);
        },
        Err(e) => {},
    }
}

/// What a Chars unit of the alternative parser reads in one step.
pub enum Piece {
    /// a plain character (an escaped character stands for **spec_escaped** of it)
    Plain(char),
    /// a special character or a set, with its own repetition count
    Unit(Shape),
}

/// The piece at the front of **s** in a Chars unit of the alternative parser, or an error code;
/// and the stream after it.
pub open spec fn alt_piece(s: Seq<char>) -> (Result<Piece, usize>, Seq<char>) {
    if s.len() >= 2 && s[0] == '\\' && is_escape_code(s[1]) {
        unit_piece(spec_special_node(s))
    } else if s.len() >= 2 && s[0] == '\\' {
        (Ok(Piece::Plain(spec_escaped(s[1]))), s.skip(2))
    } else if s[0] == '.' || s[0] == '$' {
        unit_piece(spec_special_node(s))
    } else if s[0] == '[' {
        unit_piece(spec_range_shape(s.drop_first()))
    } else {
        (Ok(Piece::Plain(s[0])), s.drop_first())
    }
}

/// A node read by a parser, as a piece.
pub open spec fn unit_piece(r: (Result<Shape, usize>, Seq<char>)) -> (Result<Piece, usize>, Seq<char>) {
    match r.0 {
        Ok(sh) => (Ok(Piece::Unit(sh)), r.1),
        Err(c) => (Err(c), r.1),
    }
}

/// The options bit of a caseless unit.
pub open spec fn case_option(nc: bool) -> usize {
    if nc {
        2
    } else {
        0
    }
}

/// The nodes **nodes** with the pending plain characters **cur** added as a Chars node, if
/// there are any.
pub open spec fn alt_flush(nodes: Seq<Shape>, cur: Seq<char>, nc: bool) -> Seq<Shape> {
    if cur.len() > 0 {
        nodes.push(chars_shape(case_string(nc, cur), Limits { min: 1, max: 1, options: case_option(nc) }))
    } else {
        nodes
    }
}

/// The nodes and pending plain characters after a piece with the Limits **l** (the count after
/// it, with the caseless bit added). A plain character without a count joins the pending ones;
/// with a count it becomes a node of its own (after the pending ones). A special character or
/// set becomes a node, which takes the count if there is one.
pub open spec fn alt_chars_step(nodes: Seq<Shape>, cur: Seq<char>, nc: bool, p: Piece, l: Limits) -> (Seq<Shape>, Seq<char>) {
    let repeated = !(l.min == 1 && l.max == 1);
    match p {
        Piece::Plain(c) => if repeated {
            (alt_flush(nodes, cur, nc).push(chars_shape(seq![c], l)), Seq::empty())
        } else {
            (nodes, cur.push(c))
        },
        Piece::Unit(sh) => {
            let u = if repeated { shape_with_limits(sh, l) } else { sh };
            (alt_flush(nodes, cur, nc).push(u), Seq::empty())
        },
    }
}

/// Whether **ch** ends a Chars unit that ends at **term** (' ' stands for any whitespace or
/// control character).
pub open spec fn ends_unit(ch: char, term: char) -> bool {
    ch == term || (term == ' ' && ch <= ' ')
}

/// The nodes of a Chars unit of the alternative parser read from the front of **s** up to and
/// including its end, after the nodes **nodes** and pending characters **cur** read so far, or
/// an error code (the text ends first: 102); and the stream after it.
pub open spec fn spec_alt_chars_loop(s: Seq<char>, term: char, nc: bool, nodes: Seq<Shape>, cur: Seq<char>) -> (Result<Seq<Shape>, usize>, Seq<char>)
    decreases s.len(),
{
    if s.len() == 0 {
        (Err(102), s)
    } else if ends_unit(s[0], term) {
        (Ok(alt_flush(nodes, cur, nc)), s.drop_first())
    } else {
        let (p, s1) = alt_piece(s);
        match p {
            Err(c) => (Err(c), s1),
            Ok(p) => {
                let (l, s2) = spec_parse_limits(s1);
                match l {
                    Err(c) => (Err(c), s2),
                    Ok(l) => if s2.len() < s.len() {
                        let (n2, c2) = alt_chars_step(nodes, cur, nc, p, Limits { min: l.min, max: l.max, options: (l.options + case_option(nc)) as usize });
                        spec_alt_chars_loop(s2, term, nc, n2, c2)
                    } else {
                        (Err(102), s2)
                    },
                }
            },
        }
    }
}

/// What **CharsNode::alt_parse_node** gives on the stream **s** for a unit ending at **term**:
/// nothing (Empty), its one node, or an AND node of its nodes that names them as a whole; or an
/// error code; and the stream after it.
pub open spec fn spec_alt_chars(s: Seq<char>, term: char) -> (Result<Shape, usize>, Seq<char>) {
    let (nc, s1) = case_prefix(s);
    let (r, rest) = spec_alt_chars_loop(s1, term, nc, Seq::empty(), Seq::empty());
    match r {
        Err(c) => (Err(c), rest),
        Ok(nodes) => (
            Ok(if nodes.len() == 0 {
                Shape::Empty
            } else if nodes.len() == 1 {
                nodes[0]
            } else {
                Shape::And { nodes, limits: Limits::spec_default(), named: None, anchor: false, name_outside: true }
            }),
            rest,
        ),
    }
}

/// A Chars unit whose nodes fail with an error code fails with it.
proof fn lemma_alt_chars_err(s: Seq<char>, term: char, c: usize)
    requires
        spec_alt_chars_loop(case_prefix(s).1, term, case_prefix(s).0, Seq::empty(), Seq::empty()).0 == Err::<Seq<Shape>, usize>(c),
    ensures
        spec_alt_chars(s, term).0 == Err::<Shape, usize>(c),
{
}

/// Adds the pending plain characters of **chars_node** to **nodes** as a Chars node (lowercased
/// for a caseless unit), if there are any, and starts a new pending node.
fn push_pending(nodes: &mut Vec<Node>, chars_node: &mut CharsNode, no_case: usize)
    requires
        no_case == 0 || no_case == 2,
        old(chars_node).limits == (Limits { min: 1, max: 1, options: no_case }),
        old(chars_node).named is None,
        !old(chars_node).name_outside,
    ensures
        shapes(final(nodes)@) == alt_flush(shapes(old(nodes)@), old(chars_node).string@, no_case == 2),
        final(chars_node).string@ == (if old(chars_node).string@.len() > 0 { Seq::empty() } else { old(chars_node).string@ }),
        final(chars_node).limits == (Limits { min: 1, max: 1, options: no_case }),
        final(chars_node).named is None,
        !final(chars_node).name_outside,
        final(nodes)@.len() >= old(nodes)@.len(),
        forall|k: int| 0 <= k < old(nodes)@.len() ==> #[trigger] final(nodes)@[k] == old(nodes)@[k],
        forall|k: int| old(nodes)@.len() <= k < final(nodes)@.len() ==> #[trigger] final(nodes)@[k] is Chars,
{
    if chars_node.string.len() > 0 {
        if no_case > 0 {
            chars_node.string = to_lowercase(&chars_node.string);
        }
        let done = CharsNode { limits: chars_node.limits, named: None, string: copy_chars(&chars_node.string), name_outside: false };
        proof {
            lemma_shapes_push(nodes@, Node::Chars(done));
        }
        nodes.push(Node::Chars(done));
        chars_node.string = Vec::new();
    }
}

impl CharsNode {
    /// Entry point to parse a single Chars unit using the alternative parser. The unit ends at
    /// **terminate** (at any whitespace or control character if **terminate** is ' ').
    /// Repetition counts and special characters inside it split it into several nodes, which
    /// are then gathered in an AND node that names them as a whole.
    pub fn alt_parse_node(chars: &mut Peekable, terminate: char) -> (r: Result<Node, Error>)
        ensures
            r matches Err(e) ==> crate::parse::parse_error_code(e.code),
            r matches Ok(n) ==> n is Empty || node_unresolved(n),
            r is Ok ==> final(chars)@.len() < old(chars)@.len(),
            agrees(r, spec_alt_chars(old(chars)@, terminate).0, |n: Node| shape(n)),
            r is Ok ==> final(chars)@ == spec_alt_chars(old(chars)@, terminate).1,
            r matches Err(e) ==> e.code != 115,
    {
        let ghost s = chars@;
        let mut chars_node = CharsNode { limits: Limits::default(), named: None, string: Vec::new(), name_outside: false };
        let mut nodes: Vec<Node> = Vec::new();
        let mut no_case: usize = 0;
        if let (Some('\\'), Some(ch)) = chars.peek_2() {
            if ch == 'c' || ch == 'C' {
                chars.consume(2);
                if ch == 'c' {
                    no_case = Limits::NO_CASE;
                    let o = chars_node.limits.options;
                    assert((o | 2usize) == 2usize) by (bit_vector)
                        requires
                            o == 0usize;
                    chars_node.limits.options = chars_node.limits.options | no_case;
                }
            }
        }
        let ghost nc = case_prefix(s).0;
        let ghost s1 = case_prefix(s).1;
        let ghost target = spec_alt_chars_loop(s1, terminate, nc, Seq::empty(), Seq::empty());
        proof {
            assert(chars@ =~= s1);
            assert(shapes(nodes@) =~= Seq::<Shape>::empty());
        }
        loop
            invariant_except_break
                spec_alt_chars_loop(chars@, terminate, nc, shapes(nodes@), chars_node.string@) == target,
            invariant
                chars@.len() <= s1.len(),
                s1.len() <= s.len(),
                s == old(chars)@,
                s1 == case_prefix(s).1,
                nc == case_prefix(s).0,
                target == spec_alt_chars_loop(s1, terminate, nc, Seq::empty(), Seq::empty()),
                no_case == case_option(nc),
                chars_node.limits == (Limits { min: 1, max: 1, options: no_case }),
                forall|k: int| 0 <= k < nodes.len() ==> #[trigger] node_unresolved(nodes@[k]),
                chars_node.named is None,
                !chars_node.name_outside,
            ensures
                chars@.len() < s1.len(),
                target == (Ok::<Seq<Shape>, usize>(alt_flush(shapes(nodes@), chars_node.string@, nc)), chars@),
            decreases chars@.len(),
        {
            let ghost before = chars@;
            let ghost old_nodes = shapes(nodes@);
            let ghost old_cur = chars_node.string@;
            let mut new_node = Node::Empty;
            let (c0, c1) = chars.peek_2();
            match (c0, c1) {
                (Some(ch), _) => {
                    if ch == terminate || (terminate == ' ' && ch <= ' ') {
                        chars.consume(1);
                        proof {
                            assert(chars@ =~= before.drop_first());
                        }
                        break;
                    } else if ch == '\\' && c1.is_some() && is_escape_code_char(c1.unwrap()) {
                        new_node = match SpecialNode::alt_parse_node(chars) {
                            Ok(n) => n,
                            Err(e) => {
                                proof {
                                    assert(spec_alt_chars_loop(before, terminate, nc, old_nodes, old_cur).0 == Err::<Seq<Shape>, usize>(e.code));
                                    lemma_alt_chars_err(s, terminate, e.code);
                                }
                                return Err(e);
                            },
                        };
                    } else if ch == '\\' && c1.is_some() {
                        chars_node.string.push(CharsNode::escaped_chars(c1.unwrap()));
                        chars.consume(2);
                        proof {
                            assert(chars@ =~= before.skip(2));
                        }
                    } else if ch == '.' || ch == '$' {
                        new_node = match SpecialNode::alt_parse_node(chars) {
                            Ok(n) => n,
                            Err(e) => {
                                proof {
                                    assert(spec_alt_chars_loop(before, terminate, nc, old_nodes, old_cur).0 == Err::<Seq<Shape>, usize>(e.code));
                                    lemma_alt_chars_err(s, terminate, e.code);
                                }
                                return Err(e);
                            },
                        };
                    } else if ch == '[' {
                        chars.consume(1);
                        proof {
                            assert(chars@ =~= before.drop_first());
                        }
                        new_node = match RangeNode::alt_parse_node(chars) {
                            Ok(n) => n,
                            Err(e) => {
                                proof {
                                    assert(spec_alt_chars_loop(before, terminate, nc, old_nodes, old_cur).0 == Err::<Seq<Shape>, usize>(e.code));
                                    lemma_alt_chars_err(s, terminate, e.code);
                                }
                                return Err(e);
                            },
                        };
                    } else {
                        let c = chars.next().unwrap();
                        chars_node.string.push(c);
                    }
                },
                (None, _) => {
                    proof {
                        assert(spec_alt_chars_loop(before, terminate, nc, old_nodes, old_cur).0 == Err::<Seq<Shape>, usize>(102));
                        lemma_alt_chars_err(s, terminate, 102);
                    }
                    return Err(Error::make(102, "Unterminated character block"));
                },
            }
            let ghost piece: Piece = if new_node is Empty {
                Piece::Plain(chars_node.string@.last())
            } else {
                Piece::Unit(shape(new_node))
            };
            proof {
                lemma_shape_kind(new_node);
                assert(alt_piece(before) == (Ok::<Piece, usize>(piece), chars@));
                assert(new_node is Empty ==> chars_node.string@ == old_cur.push(piece->Plain_0));
                assert(!(new_node is Empty) ==> chars_node.string@ == old_cur);
                lemma_parsed_options(chars@);
            }
            let ghost s_piece = chars@;
            let mut limits = match Limits::parse(chars) {
                Ok(l) => l,
                Err(e) => {
                    proof {
                        assert(spec_alt_chars_loop(before, terminate, nc, old_nodes, old_cur).0 == Err::<Seq<Shape>, usize>(e.code));
                        lemma_alt_chars_err(s, terminate, e.code);
                    }
                    return Err(e);
                },
            };
            let o = limits.options;
            assert((o | no_case) == o + no_case) by (bit_vector)
                requires
                    o == 0 || o == 1,
                    no_case == 0 || no_case == 2;
            limits.options = limits.options | no_case;
            proof {
                assert(chars@.len() < before.len());
            }
            if !(limits.min == 1 && limits.max == 1) {
                if new_node.is_none() {
                    if let Some(ch) = chars_node.string.pop() {
                        proof {
                            assert(chars_node.string@ =~= old_cur);
                        }
                        push_pending(&mut nodes, &mut chars_node, no_case);
                        let mut single: Vec<char> = Vec::new();
                        single.push(ch);
                        new_node = Node::Chars(CharsNode { string: single, named: None, limits, name_outside: false });
                        proof {
                            assert(single@ =~= seq![ch]);
                        }
                    } else {
                        return Err(Error::make(103, "Repetition count with no node (should not happen)"));
                    }
                } else {
                    new_node.set_limits(limits);
                }
            }
            if !new_node.is_none() {
                proof {
                    lemma_shape_kind(new_node);
                }
                push_pending(&mut nodes, &mut chars_node, no_case);
                let ghost mid = nodes@;
                proof {
                    lemma_shapes_push(mid, new_node);
                }
                nodes.push(new_node);
                proof {
                    assert forall|k: int| 0 <= k < nodes.len() implies #[trigger] node_unresolved(nodes@[k]) by {
                        if k < mid.len() {
                            assert(nodes@[k] == mid[k]);
                        }
                    }
                }
            }
            proof {
                assert(alt_chars_step(old_nodes, old_cur, nc, piece, limits) == (shapes(nodes@), chars_node.string@));
            }
        }
        push_pending(&mut nodes, &mut chars_node, no_case);
        if nodes.len() == 0 {
            Ok(Node::Empty)
        } else if nodes.len() == 1 {
            proof {
                lemma_shapes(nodes@);
            }
            Ok(nodes.pop().unwrap())
        } else {
            let a = AndNode { limits: Limits::default(), named: None, nodes, anchor: false, name_outside: true };
            proof {
                lemma_and_children(a);
                lemma_shapes(a.nodes@);
            }
            Ok(Node::And(a))
        }
    }
}

impl SpecialNode {
    /// Entry point to parse a single special char using the alternative parser
    /// (it is identical to the Special parser in the traditional parser, but has
    /// a separate front end to make future changes easier)
    pub fn alt_parse_node(chars: &mut Peekable) -> (r: Result<Node, Error>)
        requires
            starts_special(old(chars)@),
        ensures
            r matches Err(e) ==> crate::parse::parse_error_code(e.code),
            r matches Ok(n) ==> n is Special,
            r is Ok ==> final(chars)@.len() < old(chars)@.len(),
            agrees(r, spec_special_node(old(chars)@).0, |n: Node| shape(n)),
            r is Ok ==> final(chars)@ == spec_special_node(old(chars)@).1,
            r matches Err(e) ==> e.code == 7 || e.code == 8,
    {
        SpecialNode::parse_node(chars)
    }
}

impl RangeNode {
    /// Entry point to parse a single range set using the alternative parser
    /// (it is identical to the Range parser in the traditional parser, but has
    /// a separate front end to make future changes easier)
    pub fn alt_parse_node(chars: &mut Peekable) -> (r: Result<Node, Error>)
        ensures
            r matches Err(e) ==> crate::parse::parse_error_code(e.code),
            r matches Ok(n) ==> n is Range,
            r is Ok ==> final(chars)@.len() < old(chars)@.len(),
            agrees(r, spec_range_shape(old(chars)@).0, |n: Node| shape(n)),
            r is Ok ==> final(chars)@ == spec_range_shape(old(chars)@).1,
            r matches Err(e) ==> e.code == 9 || e.code == 7 || e.code == 8,
    {
        RangeNode::parse_node(chars)
    }
}

/// The home directory, as **home::home_dir** finds it (None if it finds none), taken as the
/// characters of the path's display form. Nothing is claimed of the result: it depends on the
/// environment, and two calls may differ.
#[verifier::external_body]
fn home_dir_chars() -> (r: Option<Vec<char>>) {
    home::home_dir().map(|p| p.display().to_string().chars().collect())
}

impl Defs {
    /// gets a name from the input stream: whitespace, then the longest run of name characters
    /// (letters, digits, "_-$#.", and for file names also "/~"), then whitespace again.
    pub fn name_from_stream(chars: &mut Peekable, file: bool) -> (r: Vec<char>)
        ensures
            r@ == spec_name_from_stream(old(chars)@, file).0,
            final(chars)@ == spec_name_from_stream(old(chars)@, file).1,
            final(chars)@.len() <= old(chars)@.len(),
    {
        let ghost s = chars@;
        proof {
            lemma_name_from_stream_len(s, file);
        }
        chars.skip_whitespace();
        let ghost s1 = chars@;
        let mut name_v: Vec<char> = Vec::new();
        let ghost mut i: int = 0;
        proof {
            assert(s1.skip(0) =~= s1);
            assert(s1.take(0) =~= Seq::<char>::empty());
        }
        loop
            invariant
                s1 == s.skip(white_run(s) as int),
                0 <= i <= s1.len(),
                chars@ == s1.skip(i),
                name_v@ == s1.take(i),
                name_run(s1, file) == i + name_run(s1.skip(i), file),
            ensures
                i == name_run(s1, file),
                chars@ == s1.skip(i),
                name_v@ == s1.take(i),
            decreases s1.len() - i,
        {
            let ghost before = chars@;
            if let Some(ch) = chars.next() {
                if is_name_char(ch, file) {
                    proof {
                        assert(name_run(before, file) == 1 + name_run(before.drop_first(), file));
                        assert(before.drop_first() =~= s1.skip(i + 1));
                        assert(s1.take(i + 1) =~= s1.take(i).push(ch));
                        i = i + 1;
                    }
                    name_v.push(ch);
                } else {
                    chars.put_back(ch);
                    proof {
                        assert(chars@ =~= before);
                        assert(name_run(before, file) == 0);
                    }
                    break;
                }
            } else {
                proof {
                    assert(name_run(before, file) == 0);
                }
                break;
            }
        }
        chars.skip_whitespace();
        name_v
    }

    /// gets a file name from the input stream; an empty name stands for "~/.regexp", and a
    /// leading "~/" stands for the home directory.
    pub fn path_from_stream(chars: &mut Peekable) -> (r: Result<Vec<char>, Error>)
        ensures
            final(chars)@ == spec_name_from_stream(old(chars)@, true).1,
            final(chars)@.len() <= old(chars)@.len(),
            r is Err ==> r->Err_0.code == 114 && in_home(use_file_name(old(chars)@)),
            r matches Ok(p) ==> path_of(use_file_name(old(chars)@), p@),
            !in_home(use_file_name(old(chars)@)) ==> r is Ok,
    {
        let ghost s = chars@;
        let mut name = Defs::name_from_stream(chars, true);
        if name.len() == 0 {
            name = crate::text::str_to_chars("~/.regexp");
            proof {
                reveal_strlit("~/.regexp");
                assert(name@ =~= default_defs_file());
            }
        }
        if name.len() >= 2 && name[0] == '~' && name[1] == '/' {
            match home_dir_chars() {
                Some(mut home) => {
                    let ghost h0 = home@;
                    let mut i: usize = 1;
                    while i < name.len()
                        invariant
                            1 <= i <= name.len(),
                            home@ == h0 + name@.subrange(1, i as int),
                        decreases name.len() - i,
                    {
                        home.push(name[i]);
                        i = i + 1;
                        proof {
                            assert(home@ =~= h0 + name@.subrange(1, i as int));
                        }
                    }
                    proof {
                        assert(name@.subrange(1, i as int) =~= name@.skip(1));
                        assert(home@ == h0 + use_file_name(s).skip(1));
                    }
                    Ok(home)
                },
                None => Err(Error::make(114, "Error reading def file: no home directory")),
            }
        } else {
            Ok(name)
        }
    }

    /// Parses a name and one or more Nodes from the input stream and stores it in the defs table
    /// (the "def(" has been read). A definition of several nodes is an AND node of them.
    #[verifier::rlimit(100)]
    pub fn parse(chars: &mut Peekable, defs: &mut Defs, sources: &Sources, loading: &mut Vec<Vec<char>>) -> (r: Result<Node, Error>)
        requires
            alt_ok(old(defs), sources, old(loading)@),
        ensures
            r matches Err(e) ==> crate::parse::parse_error_code(e.code),
            final(defs).wf(),
            r is Ok ==> final(loading)@ == old(loading)@,
            r matches Ok(n) ==> n is Empty,
            r is Ok ==> final(chars)@.len() < old(chars)@.len(),
            !use_met(spec_def_stmt(old(chars)@, files_in_view(sources, old(loading)@)).0) ==> agrees(r, spec_def_stmt(old(chars)@, files_in_view(sources, old(loading)@)).0, |n: Node| shape(n)),
            !use_met(spec_def_stmt(old(chars)@, files_in_view(sources, old(loading)@)).0) && r is Ok ==> final(chars)@ == spec_def_stmt(old(chars)@, files_in_view(sources, old(loading)@)).1
                && def_shapes(final(defs).entries()) == with_defs(def_shapes(old(defs).entries()), spec_def_stmt(old(chars)@, files_in_view(sources, old(loading)@)).2),
            sources.paths().len() == 0 && use_met(spec_def_stmt(old(chars)@, files_in_view(sources, old(loading)@)).0) ==> (r matches Err(e) && use_error(e.code)),
        decreases sources.paths().len() - old(loading)@.len(), old(chars)@.len(), 2nat,
    {
        proof {
            lemma_loading_len(sources, loading@);
        }
        let ghost s = chars@;
        let ghost d0 = def_shapes(defs.entries());
        let ghost start = chars@.len();
        let name = Defs::name_from_stream(chars, false);
        if chars.next() != Some(':') {
            return Err(Error::make(111, "Missing required name for RE definition"));
        }
        let ghost s2 = chars@;
        let ghost target = spec_def_items(s2, Seq::empty(), Seq::empty(), files_in_view(sources, old(loading)@));
        let ghost mut made: Seq<(Seq<char>, Shape)> = Seq::empty();
        let mut nodes: Vec<Node> = Vec::new();
        proof {
            assert(shapes(nodes@) =~= Seq::<Shape>::empty());
        }
        loop
            invariant_except_break
                (!use_met_items(target.0) || sources.paths().len() == 0) ==> spec_def_items(chars@, shapes(nodes@), made, files_in_view(sources, old(loading)@)) == target
                    && def_shapes(defs.entries()) == with_defs(d0, made),
            invariant
                alt_ok(defs, sources, loading@),
                loading@ == old(loading)@,
                chars@.len() < start,
                start == old(chars)@.len(),
                s == old(chars)@,
                d0 == def_shapes(old(defs).entries()),
                target == spec_def_items(s2, Seq::empty(), Seq::empty(), files_in_view(sources, old(loading)@)),
                s2 == spec_name_from_stream(s, false).1.drop_first(),
                spec_name_from_stream(s, false).1.len() > 0,
                spec_name_from_stream(s, false).1[0] == ':',
                spec_name_from_stream(s, false).1.len() <= s.len(),
                spec_name_from_stream(s, false).0 == name@,
                forall|k: int| 0 <= k < nodes.len() ==> #[trigger] node_unresolved(nodes@[k]),
            ensures
                alt_ok(defs, sources, loading@),
                chars@.len() < start,
                (!use_met_items(target.0) || sources.paths().len() == 0) ==> target == (Ok::<Seq<Shape>, usize>(shapes(nodes@)), chars@, made)
                    && def_shapes(defs.entries()) == with_defs(d0, made),
            decreases chars@.len(),
        {
            let ghost before = chars@;
            chars.skip_whitespace();
            let ghost t = chars@;
            if chars.peek() == Some(')') {
                chars.consume(1);
                proof {
                    assert(chars@ =~= t.drop_first());
                }
                break;
            }
            let ghost dbefore = def_shapes(defs.entries());
            let node = match alt_parse(chars, defs, sources, loading) {
                Ok(n) => n,
                Err(e) => {
                    proof {
                        if !use_met_items(target.0) {
                            assert(spec_def_items(before, shapes(nodes@), made, files_in_view(sources, old(loading)@)).0 == Err::<Seq<Shape>, usize>(e.code));
                            lemma_def_stmt_err(s, e.code, files_in_view(sources, old(loading)@));
                        }
                    }
                    return Err(e);
                },
            };
            proof {
                lemma_shape_kind(node);
                if !use_met_items(target.0) || sources.paths().len() == 0 {
                    lemma_with_defs_add(d0, made, spec_alt_parse(t, files_in_view(sources, old(loading)@)).2);
                }
                made = made + spec_alt_parse(t, files_in_view(sources, old(loading)@)).2;
            }
            if !node.is_none() {
                proof {
                    lemma_shapes_push(nodes@, node);
                }
                nodes.push(node);
            }
        }
        if nodes.len() == 0 {
            return Err(Error::make(112, "No valid definition given"));
        }
        let ghost all = nodes@;
        proof {
            lemma_shapes(all);
        }
        let root = if nodes.len() == 1 {
            let r0 = nodes.pop().unwrap();
            proof {
                assert(r0 == all[0]);
                assert(node_unresolved(all[0]));
            }
            r0
        } else {
            let a = AndNode { limits: Limits::default(), named: None, anchor: false, nodes, name_outside: false };
            proof {
                lemma_and_children(a);
            }
            Node::And(a)
        };
        let root = parse_suffix(root, chars)?;
        let ghost before_insert = defs.entries();
        defs.insert(name, root);
        proof {
            lemma_def_shapes_insert(before_insert, name@, root);
            lemma_with_defs_push(d0, made, (name@, shape(root)));
        }
        Ok(Node::Empty)
    }

    /// Reads RE snippet definitions from a file and loads them into the table (the "use(" has
    /// been read). The file's text comes from the sources table: a file not in it stops the parse
    /// with error 115, whose message is the file's path, so that the caller can read the file and
    /// parse again. A file that uses itself, directly or through others, is an error.
    pub fn load(chars: &mut Peekable, defs: &mut Defs, sources: &Sources, loading: &mut Vec<Vec<char>>) -> (r: Result<Node, Error>)
        requires
            alt_ok(old(defs), sources, old(loading)@),
        ensures
            r matches Err(e) ==> crate::parse::parse_error_code(e.code),
            final(defs).wf(),
            r is Ok ==> final(loading)@ == old(loading)@,
            r matches Ok(n) ==> n is Empty,
            r is Ok ==> final(chars)@.len() <= old(chars)@.len(),
            r is Ok ==> first_of(skip_white(spec_name_from_stream(old(chars)@, true).1)) == Some(')')
                && final(chars)@ == skip_white(spec_name_from_stream(old(chars)@, true).1).drop_first(),
            first_of(skip_white(spec_name_from_stream(old(chars)@, true).1)) != Some(')') ==> (r matches Err(e)
                && (e.code == 113 || e.code == 114)),
            sources.paths().len() == 0 ==> (r matches Err(e) && use_error(e.code)),
            !in_home(use_file_name(old(chars)@)) && !use_statement_ok(old(chars)@) ==> (r matches Err(e) && e.code == 113),
            r is Ok ==> exists|p: Seq<char>| #[trigger] path_of(use_file_name(old(chars)@), p)
                && sources.entry(p) is Some && sources.entry(p)->Some_0 is Ok && !views(old(loading)@).contains(p)
                && loaded_from(sources.entry(p)->Some_0->Ok_0, def_shapes(old(defs).entries()), def_shapes(final(defs).entries()),
                    nested_view(sources, old(loading)@, p)),
            use_statement_ok(old(chars)@) && !in_home(use_file_name(old(chars)@)) ==> {
                let p = use_file_name(old(chars)@);
                &&& sources.entry(p) is None ==> (r matches Err(e) && e.code == 115 && e.msg@ == p)
                &&& (sources.entry(p) is Some && sources.entry(p)->Some_0 is Err) ==> (r matches Err(e) && e.code == 114)
                &&& (sources.entry(p) is Some && sources.entry(p)->Some_0 is Ok && views(old(loading)@).contains(p)) ==> (r matches Err(
                    e,
                ) && e.code == 116)
                &&& (sources.entry(p) is Some && sources.entry(p)->Some_0 is Ok && !views(old(loading)@).contains(p)
                    && !use_met_file(spec_load_file(sources.entry(p)->Some_0->Ok_0, Seq::empty(), nested_view(sources, old(loading)@, p)).0)) ==> {
                    &&& (r is Ok <==> spec_load_file(sources.entry(p)->Some_0->Ok_0, Seq::empty(), nested_view(sources, old(loading)@, p)).0 is Ok)
                    &&& r matches Err(e) ==> spec_load_file(sources.entry(p)->Some_0->Ok_0, Seq::empty(), nested_view(sources, old(loading)@, p)).0 == Err::<(), usize>(e.code)
                }
            },
        decreases sources.paths().len() - old(loading)@.len(), old(chars)@.len(), 2nat,
    {
        proof {
            lemma_loading_len(sources, loading@);
        }
        let path = Defs::path_from_stream(chars)?;
        chars.skip_whitespace();
        if chars.next() != Some(')') {
            return Err(Error::make(113, "Malformed \"use\" statement"));
        }
        let text = match sources.lookup(&path) {
            None => {
                let e = Error::with_detail(115, "", path.as_slice(), "");
                proof {
                    reveal_strlit("");
                    assert(e.msg@ =~= path@);
                }
                return Err(e);
            },
            Some(Err(msg)) => {
                let mut detail = copy_chars(&path);
                detail.push(':');
                detail.push(' ');
                let mut i: usize = 0;
                while i < msg.len()
                    invariant
                        i <= msg.len(),
                    decreases msg.len() - i,
                {
                    detail.push(msg[i]);
                    i = i + 1;
                }
                return Err(Error::with_detail(114, "Error reading def file ", detail.as_slice(), ""));
            },
            Some(Ok(t)) => t,
        };
        if contains_chars(loading, &path) {
            return Err(Error::with_detail(116, "", path.as_slice(), " is used recursively"));
        }
        let ghost before_push = loading@;
        proof {
            assert(path_of(use_file_name(old(chars)@), path@));
        }
        loading.push(copy_chars(&path));
        proof {
            assert(views(loading@) =~= views(before_push).push(path@));
            assert forall|x: int, y: int| 0 <= x < y < views(loading@).len() implies views(loading@)[x] != views(loading@)[y] by {
                if y == before_push.len() {
                    assert(views(before_push).contains(views(before_push)[x]));
                }
            }
            assert forall|k: int| 0 <= k < loading@.len() implies #[trigger] sources.paths().contains(loading@[k]@) by {
                if k < before_push.len() {
                    assert(loading@[k] == before_push[k]);
                }
            }
            lemma_loading_len(sources, loading@);
        }
        let ghost tv = text@;
        let ghost d0 = def_shapes(defs.entries());
        let mut def_chars = Peekable::from_chars(text);
        let r = Defs::load_all(&mut def_chars, defs, sources, loading);
        match r {
            Ok(()) => {
                loading.pop();
                proof {
                    assert(loading@ =~= before_push);
                    assert(sources.entry(path@) == Some(Ok::<Seq<char>, Seq<char>>(tv)));
                    assert(loaded_from(tv, d0, def_shapes(defs.entries()), nested_view(sources, old(loading)@, path@)));
                }
                Ok(Node::Empty)
            },
            Err(e) => Err(e),
        }
    }

    /// Parses all the units of a definition file, skipping comment lines (starting with '#').
    fn load_all(def_chars: &mut Peekable, defs: &mut Defs, sources: &Sources, loading: &mut Vec<Vec<char>>) -> (r: Result<(), Error>)
        requires
            alt_ok(old(defs), sources, old(loading)@),
            old(loading)@.len() > 0,
        ensures
            r matches Err(e) ==> crate::parse::parse_error_code(e.code),
            final(defs).wf(),
            r is Ok ==> final(loading)@ == old(loading)@,
            !use_met_file(spec_load_file(old(def_chars)@, Seq::empty(), files_in_view(sources, old(loading)@)).0) ==> {
                &&& (r is Ok <==> spec_load_file(old(def_chars)@, Seq::empty(), files_in_view(sources, old(loading)@)).0 is Ok)
                &&& r matches Err(e) ==> spec_load_file(old(def_chars)@, Seq::empty(), files_in_view(sources, old(loading)@)).0 == Err::<(), usize>(e.code)
                &&& r is Ok ==> def_shapes(final(defs).entries())
                    == with_defs(def_shapes(old(defs).entries()), spec_load_file(old(def_chars)@, Seq::empty(), files_in_view(sources, old(loading)@)).1)
            },
        decreases sources.paths().len() - old(loading)@.len() + 1, 0nat, 0nat,
    {
        let ghost s = def_chars@;
        let ghost d0 = def_shapes(defs.entries());
        let ghost target = spec_load_file(s, Seq::empty(), files_in_view(sources, loading@));
        let ghost mut made: Seq<(Seq<char>, Shape)> = Seq::empty();
        proof {
            assert(with_defs(d0, made) == d0);
        }
        loop
            invariant_except_break
                !use_met_file(target.0) ==> spec_load_file(def_chars@, made, files_in_view(sources, loading@)) == target && def_shapes(defs.entries()) == with_defs(d0, made),
            invariant
                alt_ok(defs, sources, loading@),
                loading@ == old(loading)@,
                loading@.len() > 0,
                d0 == def_shapes(old(defs).entries()),
                target == spec_load_file(s, Seq::empty(), files_in_view(sources, loading@)),
                s == old(def_chars)@,
            ensures
                alt_ok(defs, sources, loading@),
                loading@ == old(loading)@,
                !use_met_file(target.0) ==> target == (Ok::<(), usize>(()), made) && def_shapes(defs.entries()) == with_defs(d0, made),
            decreases def_chars@.len(),
        {
            let ghost before = def_chars@;
            proof {
                crate::peekable::lemma_white_run_le(before);
            }
            def_chars.skip_whitespace();
            let ghost t = def_chars@;
            match def_chars.peek() {
                None => {
                    break;
                },
                Some('#') => {
                    let _ = def_chars.next();
                    let ghost u = after_comment(t.drop_first());
                    proof {
                        lemma_after_comment_len(t.drop_first());
                    }
                    loop
                        invariant_except_break
                            after_comment(def_chars@) == u,
                        invariant
                            alt_ok(defs, sources, loading@),
                            loading@ == old(loading)@,
                            loading@.len() > 0,
                            def_chars@.len() < before.len(),
                        ensures
                            alt_ok(defs, sources, loading@),
                            loading@ == old(loading)@,
                            loading@.len() > 0,
                            def_chars@ == u,
                        decreases def_chars@.len(),
                    {
                        match def_chars.next() {
                            Some('\n') | None => {
                                break;
                            },
                            _ => {},
                        }
                    }
                },
                Some(_) => {
                    proof {
                        lemma_loading_len(sources, loading@);
                    }
                    match alt_parse(def_chars, defs, sources, loading) {
                        Ok(_) => {},
                        Err(e) => {
                            return Err(e);
                        },
                    }
                    proof {
                        if !use_met_file(target.0) {
                            lemma_with_defs_add(d0, made, spec_alt_parse(t, files_in_view(sources, loading@)).2);
                        }
                        made = made + spec_alt_parse(t, files_in_view(sources, loading@)).2;
                    }
                },
            }
        }
        Ok(())
    }
}

/// The errors that a "use(FILE)" unit gives when the file is not among the sources: a malformed
/// statement (113), a home directory that cannot be found (114), or a file not given (115).
pub open spec fn use_error(code: usize) -> bool {
    code == 113 || code == 114 || code == 115
}

/// Whether the parse of a definition file met a "use(FILE)" unit.
pub open spec fn use_met_file(r: Result<(), usize>) -> bool {
    r == Err::<(), usize>(0)
}

/// The rest of a comment: the stream after its next newline (nothing if there is none).
pub open spec fn after_comment(s: Seq<char>) -> Seq<char>
    decreases s.len(),
{
    if s.len() == 0 {
        s
    } else if s[0] == '\n' {
        s.drop_first()
    } else {
        after_comment(s.drop_first())
    }
}

/// The rest of a comment is no longer than the stream.
pub proof fn lemma_after_comment_len(s: Seq<char>)
    ensures
        after_comment(s).len() <= s.len(),
    decreases s.len(),
{
    if s.len() > 0 && s[0] != '\n' {
        lemma_after_comment_len(s.drop_first());
    }
}

/// What reading the definition file text **s** gives, after the definitions **made** so far:
/// after whitespace, a line starting with '#' is a comment, and anything else is a unit of the
/// alternative parser (whose node is dropped); the first error stops the reading. Gives success
/// or an error code, and the definitions made, in order.
pub open spec fn spec_load_file(s: Seq<char>, made: Seq<(Seq<char>, Shape)>, files: Option<FileView>) -> (Result<(), usize>, Seq<(Seq<char>, Shape)>)
    decreases files_rank(files), s.len(), 6nat,
{
    let t = skip_white(s);
    proof {
        crate::peekable::lemma_white_run_le(s);
    }
    if t.len() == 0 {
        (Ok(()), made)
    } else if t[0] == '#' {
        let u = after_comment(t.drop_first());
        proof {
            lemma_after_comment_len(t.drop_first());
        }
        spec_load_file(u, made, files)
    } else {
        let (r, rest, m2) = spec_alt_parse(t, files);
        match r {
            Err(c) => (Err(c), made + m2),
            Ok(_) => if rest.len() < s.len() {
                spec_load_file(rest, made + m2, files)
            } else {
                (Err(102), made + m2)
            },
        }
    }
}

/// Whether a result of the alternative parser's model is left open: the error code 0 stands for a
/// "use(FILE)" unit whose outcome depends on the environment (a file in the home directory), not
/// on the text and the files given.
pub open spec fn use_met(r: Result<Shape, usize>) -> bool {
    r == Err::<Shape, usize>(0)
}

/// The stream after its leading whitespace.
pub open spec fn skip_white(s: Seq<char>) -> Seq<char> {
    s.skip(white_run(s) as int)
}

/// Whether **s** starts with the characters of **word**.
pub open spec fn starts_with_word(s: Seq<char>, word: Seq<char>) -> bool {
    s.len() >= word.len() && s.take(word.len() as int) == word
}

/// The name and repetition count after a unit: a name before the count names each repetition,
/// a name after it (only if there was none before) names the repetitions together. Gives the
/// node, or an error code, and the stream after it.
pub open spec fn spec_alt_suffix(n: Shape, s: Seq<char>) -> (Result<Shape, usize>, Seq<char>) {
    let (nm, s1) = spec_alt_named(s);
    match nm {
        Err(c) => (Err(c), s1),
        Ok(nm) => {
            let n1 = shape_with_name(n, nm, false);
            let (l, s2) = spec_parse_limits(s1);
            match l {
                Err(c) => (Err(c), s2),
                Ok(l) => {
                    let n2 = if !(l.min == 1 && l.max == 1) { shape_with_limits(n1, l) } else { n1 };
                    if shape_named(n2) is None {
                        let (nm2, s3) = spec_alt_named(s2);
                        match nm2 {
                            Err(c) => (Err(c), s3),
                            Ok(nm2) => (Ok(shape_with_name(n2, nm2, nm2 is Some)), s3),
                        }
                    } else {
                        (Ok(n2), s2)
                    }
                },
            }
        },
    }
}

/// The definition files as a parse sees them: the texts of the files given (or the messages of
/// the errors met reading them), the files being read, outermost first, and how many more files
/// can be read inside one another.
pub struct FileView {
    pub texts: Map<Seq<char>, Result<Seq<char>, Seq<char>>>,
    pub loading: Seq<Seq<char>>,
    pub depth: nat,
}

/// A measure that reading a file lowers, which bounds the nesting of the parse.
pub open spec fn files_rank(files: Option<FileView>) -> nat {
    match files {
        Some(f) => f.depth + 1,
        None => 0,
    }
}

/// The definition files given to the parser, as a map from path to the file's text or the
/// message of the error met reading it.
pub open spec fn source_files(sources: &Sources) -> Map<Seq<char>, Result<Seq<char>, Seq<char>>> {
    Map::new(|p: Seq<char>| sources.entry(p) is Some, |p: Seq<char>| sources.entry(p)->Some_0)
}

/// The definition files as a parse sees them when the files **loading** are being read.
pub open spec fn files_in_view(sources: &Sources, loading: Seq<Vec<char>>) -> Option<FileView> {
    Some(FileView { texts: source_files(sources), loading: views(loading), depth: (sources.paths().len() - loading.len()) as nat })
}

/// The definition files as the parse of the file **p** sees them, read while the files
/// **loading** are being read.
pub open spec fn nested_view(sources: &Sources, loading: Seq<Vec<char>>, p: Seq<char>) -> Option<FileView> {
    Some(FileView { texts: source_files(sources), loading: views(loading).push(p), depth: (sources.paths().len() - loading.len() - 1) as nat })
}

/// What a "use(FILE)" unit gives after its "use(", the files being **f**: the file name and its
/// ')' (error 113 without it), then the file's text (error 115 if the file is not given, 114 if
/// reading it failed, 116 if the file is being read already), whose definitions are made as
/// **spec_load_file** says. The unit itself gives nothing (Empty). A name in the home directory
/// is left open (error code 0): the home directory comes from the environment.
pub open spec fn spec_use_unit(s: Seq<char>, f: FileView) -> (Result<Shape, usize>, Seq<char>, Seq<(Seq<char>, Shape)>)
    decreases f.depth + 1, s.len(), 6nat,
{
    let name = use_file_name(s);
    let s2 = skip_white(spec_name_from_stream(s, true).1);
    if in_home(name) {
        (Err(0), s, Seq::empty())
    } else if first_of(s2) != Some(')') {
        (Err(113), s2, Seq::empty())
    } else if !f.texts.dom().contains(name) {
        (Err(115), s2, Seq::empty())
    } else {
        match f.texts[name] {
            Err(_) => (Err(114), s2, Seq::empty()),
            Ok(t) => if f.loading.contains(name) {
                (Err(116), s2, Seq::empty())
            } else if f.depth == 0 {
                (Err(0), s, Seq::empty())
            } else {
                let inner = FileView { texts: f.texts, loading: f.loading.push(name), depth: (f.depth - 1) as nat };
                let (r, made) = spec_load_file(t, Seq::empty(), Some(inner));
                match r {
                    Err(c) => (Err(c), s2, made),
                    Ok(_) => (Ok(Shape::Empty), s2.drop_first(), made),
                }
            },
        }
    }
}

/// What **alt_parse** gives on the stream **s**: after whitespace, the unit that its first
/// characters announce ("def(", "get(", "use(", "and(", "or(", a quote, "txt(", or else a
/// plain Chars unit ending at whitespace), with its name and repetition count; the stream after
/// it; and the definitions made.
pub open spec fn spec_alt_parse(s: Seq<char>, files: Option<FileView>) -> (Result<Shape, usize>, Seq<char>, Seq<(Seq<char>, Shape)>)
    decreases files_rank(files), s.len(), 3nat,
{
    let t = skip_white(s);
    proof {
        crate::peekable::lemma_white_run_le(s);
    }
    let (unit, rest, made) = if starts_with_word(t, seq!['d', 'e', 'f', '(']) {
        spec_def_stmt(t.skip(4), files)
    } else if starts_with_word(t, seq!['g', 'e', 't', '(']) {
        let (r, rest) = spec_get_unit(t.skip(4));
        (r, rest, Seq::empty())
    } else if starts_with_word(t, seq!['u', 's', 'e', '(']) {
        match files {
            Some(f) => spec_use_unit(t.skip(4), f),
            None => (Err(0), t, Seq::empty()),
        }
    } else if starts_with_word(t, seq!['a', 'n', 'd', '(']) {
        spec_alt_group(t.skip(4), 104, files)
    } else if starts_with_word(t, seq!['o', 'r', '(']) {
        spec_alt_group(t.skip(3), 105, files)
    } else if t.len() > 0 && t[0] == '"' {
        let (r, rest) = spec_alt_chars(t.drop_first(), '"');
        (r, rest, Seq::empty())
    } else if t.len() > 0 && t[0] == '\'' {
        let (r, rest) = spec_alt_chars(t.drop_first(), '\'');
        (r, rest, Seq::empty())
    } else if starts_with_word(t, seq!['t', 'x', 't', '(']) {
        let (r, rest) = spec_alt_chars(t.skip(4), ')');
        (r, rest, Seq::empty())
    } else {
        let (r, rest) = spec_alt_chars(t, ' ');
        (r, rest, Seq::empty())
    };
    match unit {
        Err(c) => (Err(c), rest, made),
        Ok(n) => if n is Empty {
            (Ok(n), rest, made)
        } else {
            let (r, rest2) = spec_alt_suffix(n, rest);
            (r, rest2, made)
        },
    }
}

/// The units of an AND (**code** 104) or OR (**code** 105) group up to and including its ')',
/// skipping whitespace and units that give nothing, after the units **acc** and definitions
/// **made** so far; the text ends first: **code**. (A successful parse always reads something,
/// so the length test never fails; it makes the recursion visibly finite.)
pub open spec fn spec_alt_items(s: Seq<char>, acc: Seq<Shape>, made: Seq<(Seq<char>, Shape)>, code: usize, files: Option<FileView>)
    -> (Result<Seq<Shape>, usize>, Seq<char>, Seq<(Seq<char>, Shape)>)
    decreases files_rank(files), s.len(), 4nat,
{
    if s.len() == 0 {
        (Err(code), s, made)
    } else if s[0] == ')' {
        (Ok(acc), s.drop_first(), made)
    } else if is_white(s[0]) {
        spec_alt_items(s.drop_first(), acc, made, code, files)
    } else {
        let (n, rest, m2) = spec_alt_parse(s, files);
        match n {
            Err(c) => (Err(c), rest, made + m2),
            Ok(n) => if rest.len() < s.len() {
                spec_alt_items(rest, if n is Empty { acc } else { acc.push(n) }, made + m2, code, files)
            } else {
                (Err(code), rest, made + m2)
            },
        }
    }
}

/// What the alternative parser gives for an AND group (**code** 104) or an OR group (**code**
/// 105) after its opening: Empty if it holds no unit, otherwise the And or Or node of its units.
pub open spec fn spec_alt_group(s: Seq<char>, code: usize, files: Option<FileView>) -> (Result<Shape, usize>, Seq<char>, Seq<(Seq<char>, Shape)>)
    decreases files_rank(files), s.len(), 5nat,
{
    let (r, rest, made) = spec_alt_items(s, Seq::empty(), Seq::empty(), code, files);
    match r {
        Err(c) => (Err(c), rest, made),
        Ok(nodes) => (
            Ok(if nodes.len() == 0 {
                Shape::Empty
            } else if code == 104 {
                Shape::And { nodes, limits: Limits::spec_default(), named: None, anchor: false, name_outside: false }
            } else {
                Shape::Or { nodes, limits: Limits::spec_default(), named: None, name_outside: false }
            }),
            rest,
            made,
        ),
    }
}

/// The units of a definition up to and including its ')', skipping whitespace before each and
/// units that give nothing, after the units **acc** and definitions **made** so far.
pub open spec fn spec_def_items(s: Seq<char>, acc: Seq<Shape>, made: Seq<(Seq<char>, Shape)>, files: Option<FileView>)
    -> (Result<Seq<Shape>, usize>, Seq<char>, Seq<(Seq<char>, Shape)>)
    decreases files_rank(files), s.len(), 4nat,
{
    let t = skip_white(s);
    proof {
        crate::peekable::lemma_white_run_le(s);
    }
    if t.len() > 0 && t[0] == ')' {
        (Ok(acc), t.drop_first(), made)
    } else {
        let (n, rest, m2) = spec_alt_parse(t, files);
        match n {
            Err(c) => (Err(c), rest, made + m2),
            Ok(n) => if rest.len() < s.len() {
                spec_def_items(rest, if n is Empty { acc } else { acc.push(n) }, made + m2, files)
            } else {
                (Err(112), rest, made + m2)
            },
        }
    }
}

/// What a definition "def(NAME: UNITS)" gives after the "def(": nothing (Empty), with the
/// definition of NAME made last: its one unit, or an AND node of its units, with the name and
/// repetition count after the ')'. A missing ':' is error 111, a definition with no unit 112.
pub open spec fn spec_def_stmt(s: Seq<char>, files: Option<FileView>) -> (Result<Shape, usize>, Seq<char>, Seq<(Seq<char>, Shape)>)
    decreases files_rank(files), s.len(), 5nat,
{
    let (name, s1) = spec_name_from_stream(s, false);
    if s1.len() == 0 || s1[0] != ':' {
        (Err(111), s1.drop_first(), Seq::empty())
    } else if s1.len() <= s.len() {
        let (r, rest, made) = spec_def_items(s1.drop_first(), Seq::empty(), Seq::empty(), files);
        match r {
            Err(c) => (Err(c), rest, made),
            Ok(nodes) => if nodes.len() == 0 {
                (Err(112), rest, made)
            } else {
                let root = if nodes.len() == 1 {
                    nodes[0]
                } else {
                    Shape::And { nodes, limits: Limits::spec_default(), named: None, anchor: false, name_outside: false }
                };
                let (r2, rest2) = spec_alt_suffix(root, rest);
                match r2 {
                    Err(c) => (Err(c), rest2, made),
                    Ok(root2) => (Ok(Shape::Empty), rest2, made.push((name, root2))),
                }
            },
        }
    } else {
        (Err(111), s1, Seq::empty())
    }
}

/// What "get(NAME)" gives after the "get(": a reference to the definition NAME, waiting for it;
/// a missing name is error 106, a missing ')' error 107.
pub open spec fn spec_get_unit(s: Seq<char>) -> (Result<Shape, usize>, Seq<char>) {
    let (name, s1) = spec_name_from_stream(s, false);
    let s2 = skip_white(s1);
    if name.len() == 0 {
        (Err(106), s1)
    } else if s2.len() == 0 || s2[0] != ')' {
        (Err(107), s2.drop_first())
    } else {
        (Ok(Shape::Def { name, node: Box::new(Shape::Empty), limits: Limits::spec_default(), named: None, name_outside: false }), s2.drop_first())
    }
}

/// A definition whose units fail with an error code fails with it.
proof fn lemma_def_stmt_err(s: Seq<char>, c: usize, files: Option<FileView>)
    requires
        spec_name_from_stream(s, false).1.len() > 0,
        spec_name_from_stream(s, false).1[0] == ':',
        spec_name_from_stream(s, false).1.len() <= s.len(),
        spec_def_items(spec_name_from_stream(s, false).1.drop_first(), Seq::empty(), Seq::empty(), files).0 == Err::<Seq<Shape>, usize>(c),
    ensures
        spec_def_stmt(s, files).0 == Err::<Shape, usize>(c),
{
}

/// The shape of a reference to a definition, waiting for it.
proof fn lemma_def_ref_shape(name: Vec<char>)
    ensures
        shape(Node::Def(DefNode { name, node: Box::new(Node::Empty), limits: Limits { min: 1, max: 1, options: 0 }, named: None, name_outside: false }))
            == (Shape::Def { name: name@, node: Box::new(Shape::Empty), limits: Limits::spec_default(), named: None, name_outside: false }),
{
    assert(shape(Node::Empty) == Shape::Empty);
}

impl DefNode {
    /// Provides a snippet reference to splice into the parse tree (the "get(" has been read);
    /// its definition is filled in after the whole expression is parsed.
    pub fn alt_parse_node(chars: &mut Peekable) -> (r: Result<Node, Error>)
        ensures
            r matches Ok(n) ==> n is Def && node_unresolved(n) && n->Def_0.name@ == spec_name_from_stream(old(chars)@, false).0
                && n->Def_0.name@.len() > 0,
            r is Ok ==> final(chars)@.len() < old(chars)@.len(),
            r is Err ==> r->Err_0.code == 106 || r->Err_0.code == 107,
            agrees(r, spec_get_unit(old(chars)@).0, |n: Node| shape(n)),
            r is Ok ==> final(chars)@ == spec_get_unit(old(chars)@).1,
    {
        let ghost s = chars@;
        let name = Defs::name_from_stream(chars, false);
        if name.len() == 0 {
            return Err(Error::make(106, "Missing required name for RE load"));
        }
        proof {
            let s1 = s.skip(white_run(s) as int);
            let s2 = s1.skip(name_run(s1, false) as int);
            assert(chars@ == s2.skip(white_run(s2) as int));
        }
        chars.skip_whitespace();
        if chars.next() != Some(')') {
            return Err(Error::make(107, "Bad char in definition name"));
        }
        proof {
            lemma_def_ref_shape(name);
        }
        Ok(Node::Def(DefNode {
            name,
            node: Box::new(Node::Empty),
            limits: Limits { min: 1, max: 1, options: 0 },
            named: None,
            name_outside: false,
        }))
    }
}

/// Reads the name and repetition count after the unit **node** (see **spec_alt_suffix**).
fn parse_suffix(node: Node, chars: &mut Peekable) -> (r: Result<Node, Error>)
    requires
        node_unresolved(node),
    ensures
        r matches Err(e) ==> crate::parse::parse_error_code(e.code),
        r matches Ok(n) ==> node_unresolved(n) && (n is Def) == (node is Def),
        r is Ok ==> final(chars)@.len() <= old(chars)@.len(),
        agrees(r, spec_alt_suffix(shape(node), old(chars)@).0, |n: Node| shape(n)),
        r is Ok ==> final(chars)@ == spec_alt_suffix(shape(node), old(chars)@).1,
        r matches Err(e) ==> e.code != 115,
{
    let mut node = node;
    proof {
        lemma_shape_kind(node);
    }
    let named = alt_parse_named(chars)?;
    let ghost n0 = node;
    node.set_named(named, false);
    proof {
        lemma_same_but_name_unresolved(n0, node);
    }
    let limits = Limits::parse(chars)?;
    if !(limits.min == 1 && limits.max == 1) {
        let ghost n1 = node;
        node.set_limits(limits);
        proof {
            lemma_same_but_limits_unresolved(n1, node);
        }
    }
    proof {
        lemma_shape_named(node);
        lemma_shape_kind(node);
    }
    if node.named().is_none() {
        let named2 = alt_parse_named(chars)?;
        let ghost n2 = node;
        node.set_named(named2, true);
        proof {
            lemma_same_but_name_unresolved(n2, node);
        }
    }
    proof {
        lemma_shape_kind(node);
    }
    Ok(node)
}

/// Four characters at the front of a stream, as its lookahead shows them.
proof fn lemma_word4(t: Seq<char>, look: Seq<Option<char>>, a: char, b: char, c: char, d: char)
    requires
        look == lookahead(t, 4),
    ensures
        starts_with_word(t, seq![a, b, c, d]) <==> (look[0] == Some(a) && look[1] == Some(b) && look[2] == Some(c) && look[3] == Some(d)),
{
    if look[0] == Some(a) && look[1] == Some(b) && look[2] == Some(c) && look[3] == Some(d) {
        assert(t.take(4) =~= seq![a, b, c, d]);
    }
    if starts_with_word(t, seq![a, b, c, d]) {
        assert(t.take(4)[0] == t[0] && t.take(4)[1] == t[1] && t.take(4)[2] == t[2] && t.take(4)[3] == t[3]);
    }
}

/// Three characters at the front of a stream, as its lookahead shows them.
proof fn lemma_word3(t: Seq<char>, look: Seq<Option<char>>, a: char, b: char, c: char)
    requires
        look == lookahead(t, 4),
    ensures
        starts_with_word(t, seq![a, b, c]) <==> (look[0] == Some(a) && look[1] == Some(b) && look[2] == Some(c)),
{
    if look[0] == Some(a) && look[1] == Some(b) && look[2] == Some(c) {
        assert(t.take(3) =~= seq![a, b, c]);
    }
    if starts_with_word(t, seq![a, b, c]) {
        assert(t.take(3)[0] == t[0] && t.take(3)[1] == t[1] && t.take(3)[2] == t[2]);
    }
}

/// main controller for the alternative parser: it skips whitespace, looks at the next few
/// characters, decides what unit they start, and distributes them to the proper XNode
/// constructor function. Then it reads the unit's name and repetition count: a name before the
/// count names each repetition, a name after it names the repetitions together.
#[verifier::rlimit(100)]
pub fn alt_parse(chars: &mut Peekable, defs: &mut Defs, sources: &Sources, loading: &mut Vec<Vec<char>>) -> (r: Result<Node, Error>)
    requires
        alt_ok(old(defs), sources, old(loading)@),
    ensures
        r matches Err(e) ==> crate::parse::parse_error_code(e.code),
        final(defs).wf(),
        r is Ok ==> final(loading)@ == old(loading)@,
        r matches Ok(n) ==> n is Empty || node_unresolved(n),
        r is Ok ==> final(chars)@.len() < old(chars)@.len(),
        !use_met(spec_alt_parse(old(chars)@, files_in_view(sources, old(loading)@)).0) ==> agrees(r, spec_alt_parse(old(chars)@, files_in_view(sources, old(loading)@)).0, |n: Node| shape(n)),
        !use_met(spec_alt_parse(old(chars)@, files_in_view(sources, old(loading)@)).0) && r is Ok ==> final(chars)@ == spec_alt_parse(old(chars)@, files_in_view(sources, old(loading)@)).1
            && def_shapes(final(defs).entries()) == with_defs(def_shapes(old(defs).entries()), spec_alt_parse(old(chars)@, files_in_view(sources, old(loading)@)).2),
        sources.paths().len() == 0 && use_met(spec_alt_parse(old(chars)@, files_in_view(sources, old(loading)@)).0) ==> (r matches Err(e) && use_error(e.code)),
    decreases sources.paths().len() - old(loading)@.len(), old(chars)@.len(), 1nat,
{
    proof {
        lemma_loading_len(sources, loading@);
    }
    let ghost s = chars@;
    let ghost d0 = def_shapes(defs.entries());
    chars.skip_whitespace();
    let ghost t = chars@;
    let look = chars.peek_n(4);
    proof {
        assert(look@ == lookahead(chars@, 4));
    }
    let (c0, c1, c2, c3) = (look[0], look[1], look[2], look[3]);
    proof {
        assert(chars@.len() <= s.len());
        assert(t == skip_white(s));
        if c3 is Some {
            assert(look@[3] == lookahead(chars@, 4)[3]);
            assert(3 < chars@.len());
        }
        if c2 is Some {
            assert(look@[2] == lookahead(chars@, 4)[2]);
            assert(2 < chars@.len());
        }
        if c0 is Some {
            assert(look@[0] == lookahead(chars@, 4)[0]);
            assert(0 < chars@.len());
        }
        lemma_word4(t, look@, 'd', 'e', 'f', '(');
        lemma_word4(t, look@, 'g', 'e', 't', '(');
        lemma_word4(t, look@, 'u', 's', 'e', '(');
        lemma_word4(t, look@, 'a', 'n', 'd', '(');
        lemma_word3(t, look@, 'o', 'r', '(');
        lemma_word4(t, look@, 't', 'x', 't', '(');
        assert((c0 == Some('"')) == (t.len() > 0 && t[0] == '"'));
        assert((c0 == Some('\'')) == (t.len() > 0 && t[0] == '\''));
    }
    let res = if c0 == Some('d') && c1 == Some('e') && c2 == Some('f') && c3 == Some('(') {
        chars.consume(4);
        Defs::parse(chars, defs, sources, loading)
    } else if c0 == Some('g') && c1 == Some('e') && c2 == Some('t') && c3 == Some('(') {
        chars.consume(4);
        DefNode::alt_parse_node(chars)
    } else if c0 == Some('u') && c1 == Some('s') && c2 == Some('e') && c3 == Some('(') {
        chars.consume(4);
        proof {
            let u = chars@;
            let name = use_file_name(u);
            assert(source_files(sources).dom().contains(name) == (sources.entry(name) is Some));
            if sources.entry(name) is Some {
                assert(source_files(sources)[name] == sources.entry(name)->Some_0);
            }
            assert(views(loading@).len() == loading@.len());
        }
        Defs::load(chars, defs, sources, loading)
    } else if c0 == Some('a') && c1 == Some('n') && c2 == Some('d') && c3 == Some('(') {
        chars.consume(4);
        AndNode::alt_parse_node(chars, defs, sources, loading)
    } else if c0 == Some('o') && c1 == Some('r') && c2 == Some('(') {
        chars.consume(3);
        OrNode::alt_parse_node(chars, defs, sources, loading)
    } else if c0 == Some('"') {
        chars.consume(1);
        CharsNode::alt_parse_node(chars, '"')
    } else if c0 == Some('\'') {
        chars.consume(1);
        CharsNode::alt_parse_node(chars, '\'')
    } else if c0 == Some('t') && c1 == Some('x') && c2 == Some('t') && c3 == Some('(') {
        chars.consume(4);
        CharsNode::alt_parse_node(chars, ')')
    } else {
        CharsNode::alt_parse_node(chars, ' ')
    };
    let node = match res {
        Ok(n) => n,
        Err(e) => {
            return Err(e);
        },
    };
    proof {
        assert(chars@.len() < s.len());
        lemma_shape_kind(node);
    }
    if !node.is_none() {
        parse_suffix(node, chars)
    } else {
        Ok(node)
    }
}

/// Parses the units of an AND group (**code** 104) or an OR group (**code** 105) up to its
/// ')', skipping whitespace and the units that give nothing.
fn alt_parse_items(chars: &mut Peekable, defs: &mut Defs, sources: &Sources, loading: &mut Vec<Vec<char>>, code: usize) -> (r: Result<Vec<Node>, Error>)
    requires
        alt_ok(old(defs), sources, old(loading)@),
        code == 104 || code == 105,
    ensures
        r matches Err(e) ==> crate::parse::parse_error_code(e.code),
        final(defs).wf(),
        r is Ok ==> final(loading)@ == old(loading)@,
        r matches Ok(v) ==> forall|k: int| 0 <= k < v.len() ==> #[trigger] node_unresolved(v@[k]),
        r is Ok ==> final(chars)@.len() < old(chars)@.len(),
        !use_met_items(spec_alt_items(old(chars)@, Seq::empty(), Seq::empty(), code, files_in_view(sources, old(loading)@)).0) ==> agrees(
            r,
            spec_alt_items(old(chars)@, Seq::empty(), Seq::empty(), code, files_in_view(sources, old(loading)@)).0,
            |v: Vec<Node>| shapes(v@),
        ),
        !use_met_items(spec_alt_items(old(chars)@, Seq::empty(), Seq::empty(), code, files_in_view(sources, old(loading)@)).0) && r is Ok ==> final(chars)@
            == spec_alt_items(old(chars)@, Seq::empty(), Seq::empty(), code, files_in_view(sources, old(loading)@)).1 && def_shapes(final(defs).entries())
            == with_defs(def_shapes(old(defs).entries()), spec_alt_items(old(chars)@, Seq::empty(), Seq::empty(), code, files_in_view(sources, old(loading)@)).2),
        sources.paths().len() == 0 && use_met_items(spec_alt_items(old(chars)@, Seq::empty(), Seq::empty(), code, files_in_view(sources, old(loading)@)).0)
            ==> (r matches Err(e) && use_error(e.code)),
    decreases sources.paths().len() - old(loading)@.len(), old(chars)@.len(), 2nat,
{
    proof {
        lemma_loading_len(sources, loading@);
    }
    let ghost s = chars@;
    let ghost d0 = def_shapes(defs.entries());
    let ghost target = spec_alt_items(s, Seq::empty(), Seq::empty(), code, files_in_view(sources, old(loading)@));
    let ghost mut made: Seq<(Seq<char>, Shape)> = Seq::empty();
    let mut nodes: Vec<Node> = Vec::new();
    proof {
        assert(shapes(nodes@) =~= Seq::<Shape>::empty());
        assert(with_defs(d0, made) == d0);
    }
    loop
        invariant_except_break
            (!use_met_items(target.0) || sources.paths().len() == 0) ==> spec_alt_items(chars@, shapes(nodes@), made, code, files_in_view(sources, old(loading)@)) == target
                && def_shapes(defs.entries()) == with_defs(d0, made),
        invariant
            alt_ok(defs, sources, loading@),
            loading@ == old(loading)@,
            chars@.len() <= s.len(),
            s == old(chars)@,
            d0 == def_shapes(old(defs).entries()),
            target == spec_alt_items(s, Seq::empty(), Seq::empty(), code, files_in_view(sources, old(loading)@)),
            code == 104 || code == 105,
            forall|k: int| 0 <= k < nodes.len() ==> #[trigger] node_unresolved(nodes@[k]),
        ensures
            alt_ok(defs, sources, loading@),
            chars@.len() < s.len(),
            (!use_met_items(target.0) || sources.paths().len() == 0) ==> target == (Ok::<Seq<Shape>, usize>(shapes(nodes@)), chars@, made)
                && def_shapes(defs.entries()) == with_defs(d0, made),
        decreases chars@.len(),
    {
        let ghost before = chars@;
        match chars.next() {
            None => {
                let e = Error::make(code, if code == 104 { "Unterminated AND node" } else { "Unterminated OR node" });
                return Err(e);
            },
            Some(')') => {
                break;
            },
            Some(' ') | Some('\n') | Some('\t') => {},
            Some(ch) => {
                chars.put_back(ch);
                proof {
                    assert(chars@ =~= before);
                }
                let ghost dbefore = def_shapes(defs.entries());
                let node = match alt_parse(chars, defs, sources, loading) {
                    Ok(n) => n,
                    Err(e) => {
                        return Err(e);
                    },
                };
                proof {
                    lemma_shape_kind(node);
                    if !use_met_items(target.0) || sources.paths().len() == 0 {
                        lemma_with_defs_add(d0, made, spec_alt_parse(before, files_in_view(sources, old(loading)@)).2);
                    }
                    made = made + spec_alt_parse(before, files_in_view(sources, old(loading)@)).2;
                }
                if !node.is_none() {
                    proof {
                        lemma_shapes_push(nodes@, node);
                    }
                    nodes.push(node);
                }
            },
        }
    }
    Ok(nodes)
}

/// Whether the units of a group met a "use(FILE)" unit.
pub open spec fn use_met_items(r: Result<Seq<Shape>, usize>) -> bool {
    r == Err::<Seq<Shape>, usize>(0)
}

impl AndNode {
    /// Recursively parses an AND node from the front of the Peekable stream (the "and(" has been
    /// read). Whitespace between the units is skipped; the node ends at ')'.
    pub fn alt_parse_node(chars: &mut Peekable, defs: &mut Defs, sources: &Sources, loading: &mut Vec<Vec<char>>) -> (r: Result<Node, Error>)
        requires
            alt_ok(old(defs), sources, old(loading)@),
        ensures
            r matches Err(e) ==> crate::parse::parse_error_code(e.code),
            final(defs).wf(),
            r is Ok ==> final(loading)@ == old(loading)@,
            r matches Ok(n) ==> n is Empty || (n is And && node_unresolved(n) && n->And_0.named is None && !n->And_0.anchor && !n->And_0.name_outside),
            r is Ok ==> final(chars)@.len() < old(chars)@.len(),
            !use_met(spec_alt_group(old(chars)@, 104, files_in_view(sources, old(loading)@)).0) ==> agrees(r, spec_alt_group(old(chars)@, 104, files_in_view(sources, old(loading)@)).0, |n: Node| shape(n)),
            !use_met(spec_alt_group(old(chars)@, 104, files_in_view(sources, old(loading)@)).0) && r is Ok ==> final(chars)@ == spec_alt_group(old(chars)@, 104, files_in_view(sources, old(loading)@)).1
                && def_shapes(final(defs).entries()) == with_defs(def_shapes(old(defs).entries()), spec_alt_group(old(chars)@, 104, files_in_view(sources, old(loading)@)).2),
            sources.paths().len() == 0 && use_met(spec_alt_group(old(chars)@, 104, files_in_view(sources, old(loading)@)).0) ==> (r matches Err(e) && use_error(e.code)),
        decreases sources.paths().len() - old(loading)@.len(), old(chars)@.len(), 3nat,
    {
        let nodes = alt_parse_items(chars, defs, sources, loading, 104)?;
        if nodes.len() == 0 {
            Ok(Node::Empty)
        } else {
            let a = AndNode { nodes, limits: Limits::default(), named: None, anchor: false, name_outside: false };
            proof {
                lemma_and_children(a);
            }
            Ok(Node::And(a))
        }
    }
}

impl OrNode {
    /// Recursively parses an OR node from the front of the Peekable stream (the "or(" has been
    /// read). Whitespace between the alternatives is skipped; the node ends at ')'.
    pub fn alt_parse_node(chars: &mut Peekable, defs: &mut Defs, sources: &Sources, loading: &mut Vec<Vec<char>>) -> (r: Result<Node, Error>)
        requires
            alt_ok(old(defs), sources, old(loading)@),
        ensures
            r matches Err(e) ==> crate::parse::parse_error_code(e.code),
            final(defs).wf(),
            r is Ok ==> final(loading)@ == old(loading)@,
            r matches Ok(n) ==> n is Empty || (n is Or && node_unresolved(n) && n->Or_0.named is None && !n->Or_0.name_outside),
            r is Ok ==> final(chars)@.len() < old(chars)@.len(),
            !use_met(spec_alt_group(old(chars)@, 105, files_in_view(sources, old(loading)@)).0) ==> agrees(r, spec_alt_group(old(chars)@, 105, files_in_view(sources, old(loading)@)).0, |n: Node| shape(n)),
            !use_met(spec_alt_group(old(chars)@, 105, files_in_view(sources, old(loading)@)).0) && r is Ok ==> final(chars)@ == spec_alt_group(old(chars)@, 105, files_in_view(sources, old(loading)@)).1
                && def_shapes(final(defs).entries()) == with_defs(def_shapes(old(defs).entries()), spec_alt_group(old(chars)@, 105, files_in_view(sources, old(loading)@)).2),
            sources.paths().len() == 0 && use_met(spec_alt_group(old(chars)@, 105, files_in_view(sources, old(loading)@)).0) ==> (r matches Err(e) && use_error(e.code)),
        decreases sources.paths().len() - old(loading)@.len(), old(chars)@.len(), 3nat,
    {
        let nodes = alt_parse_items(chars, defs, sources, loading, 105)?;
        if nodes.len() == 0 {
            Ok(Node::Empty)
        } else {
            let o = OrNode { nodes, limits: Limits::default(), named: None, name_outside: false };
            proof {
                lemma_or_children(o);
            }
            Ok(Node::Or(o))
        }
    }
}

/// Whitespace before a unit is ignored: the whitespace characters **ws** in front of a stream
/// change nothing in what the alternative parser reads from it.
#[verifier::rlimit(100)]
pub proof fn law_whitespace_before_unit(ws: Seq<char>, s: Seq<char>, files: Option<FileView>)
    requires
        forall|i: int| 0 <= i < ws.len() ==> is_white(#[trigger] ws[i]),
    ensures
        spec_alt_parse(ws + s, files) == spec_alt_parse(s, files),
{
    lemma_skip_white_prefix(ws, s);
}

/// Whitespace between the units of an AND or OR group is ignored: the whitespace characters
/// **ws** in front of the rest of a group change nothing in what it holds.
pub proof fn law_whitespace_between_units(ws: Seq<char>, s: Seq<char>, acc: Seq<Shape>, made: Seq<(Seq<char>, Shape)>, code: usize, files: Option<FileView>)
    requires
        forall|i: int| 0 <= i < ws.len() ==> is_white(#[trigger] ws[i]),
    ensures
        spec_alt_items(ws + s, acc, made, code, files) == spec_alt_items(s, acc, made, code, files),
    decreases ws.len(),
{
    if ws.len() > 0 {
        assert((ws + s)[0] == ws[0]);
        assert((ws + s).drop_first() =~= ws.drop_first() + s);
        assert forall|i: int| 0 <= i < ws.drop_first().len() implies is_white(#[trigger] ws.drop_first()[i]) by {
            assert(is_white(ws[i + 1]));
        }
        law_whitespace_between_units(ws.drop_first(), s, acc, made, code, files);
    } else {
        assert(ws + s =~= s);
    }
}

/// Skipping the whitespace of **ws** + **s** skips all of **ws**.
proof fn lemma_skip_white_prefix(ws: Seq<char>, s: Seq<char>)
    requires
        forall|i: int| 0 <= i < ws.len() ==> is_white(#[trigger] ws[i]),
    ensures
        skip_white(ws + s) == skip_white(s),
    decreases ws.len(),
{
    if ws.len() > 0 {
        assert((ws + s)[0] == ws[0]);
        assert((ws + s).drop_first() =~= ws.drop_first() + s);
        assert forall|i: int| 0 <= i < ws.drop_first().len() implies is_white(#[trigger] ws.drop_first()[i]) by {
            assert(is_white(ws[i + 1]));
        }
        lemma_skip_white_prefix(ws.drop_first(), s);
        crate::peekable::lemma_white_run_le((ws + s).drop_first());
        assert(white_run(ws + s) == 1 + white_run((ws + s).drop_first()));
        assert((ws + s).skip(white_run(ws + s) as int) =~= (ws + s).drop_first().skip(white_run((ws + s).drop_first()) as int));
    } else {
        assert(ws + s =~= s);
    }
}

} // verus!
