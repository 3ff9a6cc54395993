use regexp::report::Report;
use regexp::{parse_tree, walk_tree, AndNode, CharsNode, Limits, Node, OrNode, Peekable, Text, EFFECTIVELY_INFINITE};

fn chars(s: &str) -> Vec<char> {
    s.chars().collect()
}

fn limits(min: usize, max: usize, lazy: bool) -> Limits {
    Limits { min, max, options: if lazy { Limits::LAZY } else { 0 } }
}

//
// Initial tests are basic sanity tests for the tree parser.
//

#[test]
fn peekable() {
    let mut chars = Peekable::new("abcde");
    chars.push('z');
    assert_eq!(Some('a'), chars.next());
    assert_eq!(Some('b'), chars.peek());
    assert_eq!(Some('b'), chars.peek());
    assert_eq!(Some('b'), chars.next());
    assert_eq!(Some('c'), chars.peek());
    chars.put_back('x');
    assert_eq!(Some('x'), chars.peek());
    assert_eq!(Some('x'), chars.next());
    assert_eq!(Some('c'), chars.next());
    assert_eq!((Some('d'), Some('e')), chars.peek_2());
    let peek_4 = chars.peek_n(4);
    assert!(peek_4.len() == 4
            && Some('d') == peek_4[0]
            && Some('e') == peek_4[1]
            && Some('z') == peek_4[2]
            && peek_4[3].is_none());
    assert_eq!(Some('d'), chars.next());
    assert_eq!(Some('e'), chars.next());
    assert_eq!(Some('z'), chars.next());
    assert_eq!(None, chars.next());
    assert_eq!(None, chars.peek());
}

//
// test Limits: parse all modes, confirm check() works. Also kind of tests Peekable
//
#[test]
fn limits_test() {
    let limits_string = " ? * + {2} {3,5} {6,} ?? *? +? {2}? {3,5}? {6,}? ";
    let data: [(usize, usize, bool); 13] = [(1, 1, false),
                                            (0, 1, false),
                                            (0, EFFECTIVELY_INFINITE, false),
                                            (1, EFFECTIVELY_INFINITE, false),
                                            (2, 2, false),
                                            (3, 5, false),
                                            (6, EFFECTIVELY_INFINITE, false),
                                            (0, 1, true),
                                            (0, EFFECTIVELY_INFINITE, true),
                                            (1, EFFECTIVELY_INFINITE, true),
                                            (2, 2, true),
                                            (3, 5, true),
                                            (6, EFFECTIVELY_INFINITE, true),
    ];
    let mut chars = Peekable::new(limits_string);
    for (min, max, lazy) in data {
        if let Ok(limits) = Limits::parse(&mut chars) {
            assert!(chars.next().unwrap() == ' ', "unexpected parse results");
            assert!(limits.check(min) < 0, "< min check failed for ({}, {}, {})", min, max, lazy);
            assert!(limits.check(min + 1) == 0, "= min check failed for ({}, {}, {})", min, max, lazy);
            assert!(limits.check(max + 1) == 0, "= max check failed for ({}, {}, {})", min, max, lazy);
            assert!(limits.check(max + 2) > 0, "> max check failed for ({}, {}, {})", min, max, lazy);
            assert!(limits.lazy() == lazy, "lazy check failed for ({}, {}, {})", min, max, lazy);
        } else { panic!("failed parsing Limits"); }
    }
    assert!(chars.next().is_none(), "Failed to consume test string");
}

//
// parser tests
//
fn make_chars_string(string: &str) -> Node {
    CharsNode::new(chars(string), Limits::default(), None, false)
}

fn make_chars_single(ch: char, min: usize, max: usize, lazy: bool) -> Node {
    CharsNode::new(vec![ch], limits(min, max, lazy), None, false)
}

fn make_root(min: usize, max: usize, lazy: bool) -> Node {
    make_and(min, max, lazy, Some(""))
}

fn make_and(min: usize, max: usize, lazy: bool, name: Option<&str>) -> Node {
    let named = name.map(chars);
    Node::And(AndNode { nodes: Vec::new(), limits: limits(min, max, lazy), named, anchor: false, name_outside: false })
}

fn make_or() -> Node {
    Node::Or(OrNode { nodes: Vec::new(), limits: Limits::default(), named: None, name_outside: false })
}

fn push(parent: &mut Node, node: Node) {
    match parent {
        Node::And(and_node) => and_node.nodes.push(node),
        Node::Or(or_node) => or_node.nodes.push(node),
        _ => panic!("can only push to And or Or node"),
    }
}

#[test]
fn test_string_simple() {
    let mut node = make_root(1, 1, false);
    push(&mut node, make_chars_string("abcd"));
    assert_eq!(node, parse_tree("abcd", false).unwrap());
}

#[test]
fn test_string_embedded_reps_greedy() {
    let mut node = make_root(1, 1, false);
    push(&mut node, make_chars_string("ab"));
    push(&mut node, make_chars_single('c', 0, 1, false));
    push(&mut node, make_chars_string("de"));
    push(&mut node, make_chars_single('f', 1, EFFECTIVELY_INFINITE, false));
    push(&mut node, make_chars_string("gh"));
    push(&mut node, make_chars_single('i', 0, EFFECTIVELY_INFINITE, false));
    assert_eq!(node, parse_tree("abc?def+ghi*", false).unwrap());
}

#[test]
fn test_string_embedded_reps_lazy() {
    let mut node = make_root(1, 1, false);
    push(&mut node, make_chars_string("ab"));
    push(&mut node, make_chars_single('c', 0, 1, true));
    push(&mut node, make_chars_string("de"));
    push(&mut node, make_chars_single('f', 1, EFFECTIVELY_INFINITE, true));
    push(&mut node, make_chars_string("gh"));
    push(&mut node, make_chars_single('i', 0, EFFECTIVELY_INFINITE, true));
    push(&mut node, make_chars_string("jk"));
    assert_eq!(node, parse_tree("abc??def+?ghi*?jk", false).unwrap());
}

#[test]
fn or_with_chars_bug() {
    let mut node = make_root(1, 1, false);
    push(&mut node, make_chars_string("ab"));
    let mut or_node = make_or();
    push(&mut or_node, make_chars_string("c"));
    push(&mut or_node, make_chars_string("d"));
    push(&mut node, or_node);
    push(&mut node, make_chars_string("ef"));
    assert_eq!(node, parse_tree(r"abc\|def", false).unwrap());
}

fn find(alt: bool, re: &str, text: &str, expected: &str) {
    let tree = parse_tree(re, alt).unwrap_or_else(|msg| panic!("Parse failed for re \"{}\": {}", re, msg.to_string()));
    let text = Text::new(text).unwrap();
    let path = walk_tree(&tree, &text, 0)
        .unwrap_or_else(|err| panic!("Expected \"{}\", got error '{}'", expected, err.to_string()))
        .unwrap_or_else(|| panic!("Expected {}, found none", expected));
    assert_eq!(path.matched_string(&text), expected, "re \"{}\" expected \"{}\", found \"{}\"", re, expected, path.matched_string(&text));
}

fn not_find(alt: bool, re: &str, text: &str) {
    let tree = parse_tree(re, alt).unwrap_or_else(|msg| panic!("Parse failed for re \"{}\": {}", re, msg.to_string()));
    let text = Text::new(text).unwrap();
    assert!(walk_tree(&tree, &text, 0).unwrap().is_none(), "re \"{}\" expected no match, found one", re);
}

//
// walk tests
//
#[test]
fn simple_chars() {
    find(false, "abc", "abcd", "abc");
    find(false, "bcd", "abcd", "bcd");
    find(false, "bcd", "abcde", "bcd");
    not_find(false, "bcd", "abde");
}

#[test]
fn rep_chars() {
    find(false, "abc*d", "abcdz", "abcd");
    find(false, "abc+d", "abcdz", "abcd");
    find(false, "abc*d", "abccdz", "abccd");
    find(false, "abc*d", "abdz", "abd");
    not_find(false, "abc+d", "abd");
    not_find(false, "abc{2}d", "abcdz");
    find(false, "abc{2}d", "abccdz", "abccd");
    not_find(false, "abc{2}d", "abcccdz");
    find(false, "abc{2,3}d", "abcccdz", "abcccd");
    find(false, r"a\d*\|b*c", "aacc", "ac");
    find(false, r"a\d*\|b*c", "aabbbcc", "abbbc");
    find(false, r"a\d*\|b*c", "a12c", "a12c");
    not_find(false, r"a\d*\|b*c", "aa1bcc");
}

#[test]
fn unicode() {
    find(false, "abc", "ab你好abcd", "abc");
    find(false, "你好", "ab你好abcd", "你好");
    find(false, "你好you-all", "ab你好you-allabcd", "你好you-all");
    find(false, "a.*a", "qqab你好abcd", "ab你好a");
    find(false, r"是很*好", "这是很很很好", "是很很很好");
}

#[test]
fn special_chars() {
    find(false, "ab.de", "aabcdef", "abcde");
    find(false, "ab.*de", "abcdedefg", "abcdede");
    not_find(false, "cde.", "abcde");
    find(false, ".*", "ab1234fg", "ab1234fg");
    find(false, r"\d+", "ab1234fg", "1234");
    find(false, r"\d*", "ab1234fg", "");
    find(false, r"b\d*", "ab1234fg", "b1234");
    not_find(false, r"xxx$", "abcxxxy");
    find(false, r"xxx$", "abcxxx", "xxx");
    find(false, r"xxx\$z", "abcxxx$zx", "xxx$z");
    find(false, r"^abc", "abcdef", "abc");
    not_find(false, r"^abc", "xabcdef");
    find(false, r"a^bc", "xa^bcdef", "a^bc");
    find(false, r"a\d+\l+", "aba123Ba123bcD", "a123bc");
    find(false, r"\a\u+", "你好abCD没有", "bCD");
}

#[test]
fn set_chars() {
    find(false, r"[abc]+", "xabacaacd", "abacaac");
    find(false, r"z[abc]*z", "abzzcd", "zz");
    find(false, r"z[abc]*z", "abzaabczcd", "zaabcz");
    not_find(false, r"z[abc]*z", "abzaabcdzcd");
    find(false, r"z[a-m]*z", "abzabclmzxx", "zabclmz");
    find(false, r"[a-mz]+", "xyzabclmzxx", "zabclmz");
    find(false, r"[a\wx-z]+", "qa x\ty\nz q", "a x\ty\nz ");
}

#[test]
fn basic_or() {
    find(false, r"abc\|de", "xxxabceyy", "abce");
    find(false, r"abc\|de", "xxxabdeyy", "abde");
    find(false, r"abc\|d", "xxxabdeyy", "abd");
    find(false, r"c\|de", "xxxabdeyy", "de");
    find(false, r"c\|d", "c", "c");
    find(false, r"c\|d", "d", "d");
    find(false, r"abc\|d*e", "xxxabceyy", "abce");
    not_find(false, r"abc\|d*e", "xxxabcceyy");
    find(false, r"abc\|d*e", "xxxabdeyy", "abde");
    find(false, r"abc\|d*e", "xxxabeyy", "abe");
    find(false, r"abc\|d*e", "xxxabdddeyy", "abddde");

    find(false, r"\(abc\)\|de", "xxxabcdeyy", "de");
    find(false, r"\(abc\)\|de", "xxxabceyy", "abce");
    find(false, r"x\(abc\)\|de", "xxxabceyy", "xabce");
    not_find(false, r"x\(abc\)\|de", "xxxabeyy");
    find(false, r"x\(abc\)+\|\(de\)*d", "xxxabcabcd", "xabcabcd");
    find(false, r"x\(abc\)+\|\(de\)*d", "xxxdedededx", "xdededed");
}

#[test]
fn lazy() {
    find(false, r"abc*", "xabccc", "abccc");
    find(false, r"abc*?", "xabccc", "ab");
    find(false, r"abc+?", "xabccc", "abc");
    find(false, r"abc*?d", "xabcccd", "abcccd");
    find(false, r"abc+?d", "xabcccd", "abcccd");
    find(false, r"abc+d", "xabcccd", "abcccd");
    find(false, r"a\(bcd\)+?bc", "abcdbcdbcd", "abcdbc");
    find(false, r"a\(bcd\)+bc", "abcdbcdbcd", "abcdbcdbc");
    find(false, r"ab*\|b", "abbbbbc", "abbbbb");
    find(false, r"ab*?\|b", "abbbbbc", "a");
    find(false, r"ab+?\|b", "abbbbbc", "ab");
    find(false, r"ab+?c", "abbbbbc", "abbbbbc");     // lazy back off
}

#[test]
fn former_bugs() {
    find(false, r"\(de\)*d", "dededede", "dededed");
    find(false, r"x\(abc\)+\|\(de\)*d", "xxxdededede", "xdededed");
}

fn report_test(re: &str, text: &str, alt: bool, func: fn(&Report, &Text)) {
    let tree = parse_tree(re, alt).unwrap_or_else(|msg| panic!("Parse failed for re \"{}\": {}", re, msg.to_string()));
    let text = Text::new(text).unwrap();
    let path = walk_tree(&tree, &text, 0).unwrap_or_else(|_| panic!("RE \"{}\" failed to parse", re)).unwrap_or_else(|| panic!("search unexpectedly failed"));
    let report = Report::new(&path, &text);
    func(&report, &text);
}

fn check_report(report: &Report, text: &Text, expected: &str, pos: (usize, usize), bytes: (usize, usize), child_count: usize) {
    assert_eq!(report.string(text), expected);
    assert_eq!(report.char_pos(), pos);
    assert_eq!(report.byte_pos(), bytes);
    assert_eq!(report.subreports.len(), child_count);
}

//
// Reports test
//
#[test]
fn reports() {
    // basic
    report_test("asd", ".asd.", false, |report, text| {
        check_report(report, text, "asd", (1, 4), (1, 4), 0);
    });
    // basic, unicode
    report_test("你好", ".你好.", false, |report, text| {
        check_report(report, text, "你好", (1, 3), (1, 7), 0);
    });
    // simple AND
    report_test(r"ab\(cd\)ef", ".abcdef.", false, |report, text| {
        check_report(report, text, "abcdef", (1, 7), (1, 7), 1);
        check_report(&report.subreports[0], text, "cd", (3, 5), (3, 5), 0);
    });
    // simple AND unicode
    report_test(r"ab\(你\)好ef", ".ab你好ef.", false, |report, text| {
        check_report(report, text, "ab你好ef", (1, 7), (1, 11), 1);
        check_report(&report.subreports[0], text, "你", (3, 4), (3, 6), 0);
        assert!(report.get_by_name("fred").is_empty());
    });

    // nested and with repetition
    report_test(r"ab\(cd\(ef\)+\)+", ".abcdefefcd.", false, |report, text| {
        check_report(report, text, "abcdefef", (1, 9), (1, 9), 1);
        check_report(&report.subreports[0], text, "cdefef", (3, 9), (3, 9), 2);
        check_report(&report.subreports[0].subreports[0], text, "ef", (5, 7), (5, 7), 0);
        check_report(&report.subreports[0].subreports[1], text, "ef", (7, 9), (7, 9), 0);
    });
    // silent AND
    report_test(r"ab\(?cd\)ef", ".abcdef.", false, |report, text| {
        check_report(report, text, "abcdef", (1, 7), (1, 7), 0);
    });
    // named
    report_test(r"ab\(?<first>cd\(?<second>ef\)+\)+", ".abcdefefcd.", false, |report, text| {
        check_report(report, text, "abcdefef", (1, 9), (1, 9), 1);
        check_report(&report.subreports[0], text, "cdefef", (3, 9), (3, 9), 2);
        check_report(&report.subreports[0].subreports[0], text, "ef", (5, 7), (5, 7), 0);
        check_report(&report.subreports[0].subreports[1], text, "ef", (7, 9), (7, 9), 0);
        assert!(report.get_by_name("fred").is_empty());
        let first = report.get_by_name("first");
        assert!(first.len() == 1);
        check_report(first[0], text, "cdefef", (3, 9), (3, 9), 2);
        let second = report.get_by_name("second");
        assert!(second.len() == 2);
        check_report(second[0], text, "ef", (5, 7), (5, 7), 0);
        check_report(second[1], text, "ef", (7, 9), (7, 9), 0);
        let zeroth = report.get_by_name("");
        check_report(zeroth[0], text, "abcdefef", (1, 9), (1, 9), 1);
        assert!(report.get_by_name("fake").is_empty());
        // all names
        let all = report.get_named();
        let zeroth = all.get("").unwrap();
        check_report(zeroth[0], text, "abcdefef", (1, 9), (1, 9), 1);
        let first = all.get("first").unwrap();
        assert!(first.len() == 1);
        check_report(first[0], text, "cdefef", (3, 9), (3, 9), 2);
        let second = all.get("second").unwrap();
        assert!(second.len() == 2);
        check_report(second[0], text, "ef", (5, 7), (5, 7), 0);
        check_report(second[1], text, "ef", (7, 9), (7, 9), 0);
        assert!(all.get("fake").is_none());
    });
}

//
// error tests
//
fn e_check(alt: bool, re: &str, ecode: usize) {
    match parse_tree(re, alt) {
        Ok(_) => panic!("Expected error {} parsing \"{}\", didn't get it", ecode, re),
        Err(error) => assert!(error.code == ecode, "Parsing \"{}\", expected error {}, found error {} ({})", re, ecode, error.code, error.msg),
    }
}

#[test]
fn errors() {
    e_check(false, r"abc\(de", 1);
    e_check(false, r"\(?<asd\)", 2);
    // 3 should not happen
    e_check(false, r"\|sdf", 4);
    // 5 should not happen
    e_check(false, r"asd\)as", 6);
    e_check(false, r"asd{as", 7);
    e_check(false, r"asd{4as", 7);
    e_check(false, r"asd{4,x", 8);
    e_check(false, r"abc[de", 9);
}

#[test]
fn alt_chars() {
    find(true, r"abc", "xabcd", "abc");
    find(true, r"abc ", "xabcd", "abc");
    find(true, "\"abc\"", "xabcd", "abc");
    find(true, r"'abc'", "xabcd", "abc");
    find(true, r"txt(abc)", "xabcd", "abc");
    find(true, r"ab\ cd", "xab cde", "ab cd");
    not_find(true, r"ab cd", "xab cde");
    find(true, r"ab c", "xabcde", "abc");

    find(true, r"ab*c", "xabbbbcd", "abbbbc");
    find(true, r"a\dc", "xa9cd", "a9c");
    find(true, r"a\d*c", "xacd", "ac");
    find(true, r"a[vx-z]*c", "xavxyzcd", "avxyzc");
    find(true, r"a[vx-z]*c", "xacd", "ac");
    find(true, r"a[^vx-z]", "avaxayazawa", "aw");
    find(true, r"'abcd'+", "xabcdabcdabc", "abcdabcd");
    find(true, r"'abcd*'", "xabcabcdabc", "abc");

    find(true, r"a\l*", "abcDefg", "abc");
    find(true, r"a\u*", "aBCDEfg", "aBCDE");
    find(true, r"a\x*", "a09bcDefg", "a09bcDef");
    find(true, r"a\o*", "a0123456789", "a01234567");
    find(true, r"a\a*", "a.+你好", "a.+");
}

#[test]
fn alt_or() {
    find(true, r"or('abc'
 	'def')", "xdefd", "def");
    find(true, r"or(a{3} y+ z )", "aayx", "y");
    find(true, r"or(a{3} y+ z )", "aaayyz", "aaa");
    find(true, r"or(a{3} y+ z )", "aazayyz", "z");
    find(true, r"or(a* y+ z )yz", "aayyyz", "yyyz");
}

#[test]
fn alt_def() {
    find(true, "def(xx: 'xyz') w get(xx)", "vwxyz", "wxyz");
    find(true, "def(aa: 'xyz') w get(aa) get(aa)", "vwxyzxyz", "wxyzxyz");
    find(true, r"def(a: x ){3} get(a) b get(a){4}", "zxxxxbxxxxxx", "xxxbxxxx");
}

#[test]
fn alt_err() {
    e_check(true, "\"asd", 102);
    e_check(true, r"and(abc def)", 104);
    // the OR reads the trailing ')' for the wrapping AND node, which is why this is not 105
    e_check(true, r"or(abc def)", 104);
    e_check(true, r"or(abc or(def ", 105);
    e_check(true, r"get() ", 106);
    e_check(true, r"get(a() ", 107);
    e_check(true, r"def(snippet_a: aa get(snippet_b)zz ) def(snippet_b: bb get(snippet_a) yy ) abcd get(snippet_a) wxyz ", 109);
    e_check(true, r"and(asd )<xy ", 110);
    e_check(true, r"def(asd)", 111);
    e_check(true, r"def(asd:)", 112);
    e_check(true, r"use(asd()", 113);
    e_check(true, r"use(no-such-file)", 114);
}

#[test]
fn runtime_error() {
    // infinite loop test
    if let Ok(tree) = parse_tree(r"and('x'*)*", true) {
        let text = Text::new("abccc").unwrap();
        match walk_tree(&tree, &text, 0) {
            Err(e) if e.code == 200 => (),
            _ => panic!("Expected infinite loop, didn't get it"),
        }
    } else { panic!("Parse failed for infinite loop test"); }
}

#[test]
// check that X*<NAME> and X<NAME>* behave right
fn alt_report() {
    report_test(r"a and('bc'<n1>* '你好'*<n2>)", "xabcbc你好你好", true, |report, text| {
        check_report(report, text, "abcbc你好你好", (1, 10), (1, 18), 3);
        check_report(&report.subreports[0], text, "bc", (2, 4), (2, 4), 0);
        check_report(&report.subreports[1], text, "bc", (4, 6), (4, 6), 0);
        check_report(&report.subreports[2], text, "你好你好", (6, 10), (6, 18), 0);
        let n1 = report.get_by_name("n1");
        assert_eq!(n1.len(), 2, "<n>* test failed");
        let n2 = report.get_by_name("n2");
        assert_eq!(n2.len(), 1, "*<n> test failed");
    });
}

#[test]
fn from_file() {
    // the program reads a file and hands its text to the library; this is such a text
    let tree = parse_tree("XXX", false).unwrap_or_else(|msg| panic!("Parse failed for re \"XXX\": {}", msg.to_string()));
    let text = Text::new("contents of a file\nwith the marker XXX in it\n").unwrap();
    let path = walk_tree(&tree, &text, 0)
        .unwrap_or_else(|err| panic!("Expected \"XXX\", got error '{}'", err.to_string()))
        .unwrap_or_else(|| panic!("Expected \"XXX\", found none"));
    assert_eq!(path.matched_string(&text), "XXX", "expected \"XXX\", found \"{}\"", path.matched_string(&text));
}
