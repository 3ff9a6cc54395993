use regexp::config::Config;
use regexp::defs::{Defs, Sources};
use regexp::report::Report;
use regexp::session::{get_command, search_request, Interactive, RegExp};
use regexp::walk::search_all;
use regexp::{parse_tree, parse_tree_with, walk_tree, Error, Limits, Node, Peekable, Text, EFFECTIVELY_INFINITE};

fn root_nodes(tree: &Node) -> &Vec<Node> {
    match tree {
        Node::And(a) => &a.nodes,
        _ => panic!("the root of a parse tree is an AND node"),
    }
}

fn chars_of(node: &Node) -> (String, Limits) {
    match node {
        Node::Chars(c) => (c.string.iter().collect(), c.limits),
        _ => panic!("expected a Chars node"),
    }
}

fn found(alt: bool, re: &str, text: &str) -> Option<String> {
    let tree = parse_tree(re, alt).unwrap_or_else(|e| panic!("parse of {} failed: {}", re, e.to_string()));
    let text = Text::new(text).unwrap();
    let path = walk_tree(&tree, &text, 0).unwrap();
    path.map(|p| p.matched_string(&text))
}

fn error_code(alt: bool, re: &str) -> usize {
    match parse_tree(re, alt) {
        Ok(_) => panic!("expected an error parsing {}", re),
        Err(e) => e.code,
    }
}

fn sources_with(path: &str, content: Result<&str, &str>) -> Sources {
    let mut sources = Sources::new();
    sources.insert(path, content.map(|s| s.to_string()).map_err(|s| s.to_string()));
    sources
}

//
// the traditional parser
//

#[test]
fn trad_run_splits_before_repeat() {
    let tree = parse_tree("abc*d", false).unwrap();
    let nodes = root_nodes(&tree);
    assert_eq!(nodes.len(), 3);
    let (s0, l0) = chars_of(&nodes[0]);
    assert_eq!(s0, "ab");
    assert_eq!((l0.min, l0.max), (1, 1));
    let (s1, l1) = chars_of(&nodes[1]);
    assert_eq!(s1, "c");
    assert_eq!((l1.min, l1.max, l1.options), (0, EFFECTIVELY_INFINITE, 0));
    let (s2, _) = chars_of(&nodes[2]);
    assert_eq!(s2, "d");
}

#[test]
fn trad_single_char_takes_count() {
    let tree = parse_tree("a{2,3}?", false).unwrap();
    let nodes = root_nodes(&tree);
    assert_eq!(nodes.len(), 1);
    let (s, l) = chars_of(&nodes[0]);
    assert_eq!(s, "a");
    assert_eq!((l.min, l.max, l.options), (2, 3, Limits::LAZY));
}

#[test]
fn trad_caseless_run_is_lowercased() {
    let tree = parse_tree(r"\cAB", false).unwrap();
    let nodes = root_nodes(&tree);
    let (s, l) = chars_of(&nodes[0]);
    assert_eq!(s, "ab");
    assert_eq!(l.options, Limits::NO_CASE);
    assert_eq!(found(false, r"\cab", "xABy"), Some("AB".to_string()));
    assert_eq!(found(false, r"\Cab", "xABy"), None);
}

#[test]
fn trad_or_collects_alternatives() {
    let tree = parse_tree(r"a\|b\|c", false).unwrap();
    let nodes = root_nodes(&tree);
    assert_eq!(nodes.len(), 1);
    match &nodes[0] {
        Node::Or(o) => assert_eq!(o.nodes.len(), 3),
        _ => panic!("expected an OR node"),
    }
    assert_eq!(found(false, r"a\|b\|c", "xxcx"), Some("c".to_string()));
}

#[test]
fn trad_anchor() {
    let tree = parse_tree("^ab", false).unwrap();
    match &tree {
        Node::And(a) => {
            assert!(a.anchor);
            assert_eq!(a.named, Some(Vec::new()));
        }
        _ => panic!("expected an AND root"),
    }
    assert_eq!(found(false, "^ab", "abab"), Some("ab".to_string()));
    assert_eq!(found(false, "^b", "ab"), None);
    match parse_tree("ab", false).unwrap() {
        Node::And(a) => assert!(!a.anchor),
        _ => panic!("expected an AND root"),
    }
}

#[test]
fn trad_named_group() {
    let tree = parse_tree(r"\(?<x>ab\)", false).unwrap();
    let nodes = root_nodes(&tree);
    match &nodes[0] {
        Node::And(a) => assert_eq!(a.named, Some(vec!['x'])),
        _ => panic!("expected an AND node"),
    }
}

#[test]
fn trad_root_has_default_limits() {
    match parse_tree(r"\(ab\)*", false).unwrap() {
        Node::And(a) => assert_eq!(a.limits, Limits::default()),
        _ => panic!("expected an AND root"),
    }
    assert_eq!(error_code(false, r"ab\)*"), 6);
}

#[test]
fn trad_empty_expression() {
    assert!(parse_tree("", false).unwrap().is_none());
    assert!(parse_tree("", true).unwrap().is_none());
}

#[test]
fn trad_error_codes() {
    assert_eq!(error_code(false, "*a"), 4);
    assert_eq!(error_code(false, r"a\)b"), 6);
    assert_eq!(error_code(false, "a{x}"), 7);
    assert_eq!(error_code(false, "a{2,x}"), 8);
    assert_eq!(error_code(false, "[ab"), 9);
    assert_eq!(error_code(false, r"\(ab"), 1);
    assert_eq!(error_code(false, r"\(?<ab\)"), 2);
}

//
// the alternative parser
//

#[test]
fn alt_quoted_chars() {
    let tree = parse_tree("\"abc\"", true).unwrap();
    let nodes = root_nodes(&tree);
    assert_eq!(nodes.len(), 1);
    let (s, l) = chars_of(&nodes[0]);
    assert_eq!(s, "abc");
    assert_eq!((l.min, l.max), (1, 1));
}

#[test]
fn alt_repeat_splits_unit() {
    let tree = parse_tree("ab*c", true).unwrap();
    let nodes = root_nodes(&tree);
    assert_eq!(nodes.len(), 1);
    match &nodes[0] {
        Node::And(a) => {
            // the unit's own name (none here) is set after it is read, which clears the flag
            assert!(!a.name_outside);
            assert_eq!(a.named, None);
            assert_eq!(a.nodes.len(), 3);
            assert_eq!(chars_of(&a.nodes[0]).0, "a");
            let (s, l) = chars_of(&a.nodes[1]);
            assert_eq!(s, "b");
            assert_eq!((l.min, l.max), (0, EFFECTIVELY_INFINITE));
            assert_eq!(chars_of(&a.nodes[2]).0, "c");
        }
        _ => panic!("expected an AND node"),
    }
}

#[test]
fn alt_def_is_substituted() {
    let tree = parse_tree("def(x: 'ab') get(x)", true).unwrap();
    let nodes = root_nodes(&tree);
    assert_eq!(nodes.len(), 1);
    match &nodes[0] {
        Node::Def(d) => {
            assert_eq!(d.name, vec!['x']);
            assert_eq!(chars_of(&d.node).0, "ab");
        }
        _ => panic!("expected a definition reference"),
    }
}

#[test]
fn alt_def_takes_reference_count() {
    let tree = parse_tree("def(x: 'ab') get(x){2}", true).unwrap();
    let nodes = root_nodes(&tree);
    match &nodes[0] {
        Node::Def(d) => {
            assert_eq!((d.limits.min, d.limits.max), (2, 2));
            let (_, l) = chars_of(&d.node);
            assert_eq!((l.min, l.max), (2, 2));
        }
        _ => panic!("expected a definition reference"),
    }
    assert_eq!(found(true, "def(x: 'ab') get(x){2}", "xabababy"), Some("abab".to_string()));
}

#[test]
fn alt_error_codes() {
    assert_eq!(error_code(true, "'abc"), 102);
    assert_eq!(error_code(true, "and('a'"), 104);
    assert_eq!(error_code(true, "get()"), 106);
    assert_eq!(error_code(true, "get(x y)"), 107);
    assert_eq!(error_code(true, "get(nothing)"), 108);
    assert_eq!(error_code(true, "def(x: get(x)) get(x)"), 109);
    assert_eq!(error_code(true, "'a'<abc"), 110);
    assert_eq!(error_code(true, "def(x 'a')"), 111);
    assert_eq!(error_code(true, "def(x: )"), 112);
    assert_eq!(error_code(true, "use(abc x)"), 113);
    assert_eq!(error_code(true, "use(abc)"), 114);
}

//
// definition files
//

#[test]
fn use_reads_sources() {
    let mut defs = Defs::new();
    let sources = sources_with("lib.re", Ok("# snippets\ndef(x: 'q')\n"));
    let tree = parse_tree_with("use(lib.re) get(x)", true, &mut defs, &sources).unwrap();
    let nodes = root_nodes(&tree);
    match &nodes[0] {
        Node::Def(d) => assert_eq!(chars_of(&d.node).0, "q"),
        _ => panic!("expected a definition reference"),
    }
    assert!(defs.get(&vec!['x']).is_some());
    assert!(defs.get(&vec!['y']).is_none());
}

#[test]
fn use_definitions_then_search() {
    let mut defs = Defs::new();
    let sources = sources_with("test.re", Ok("def(a: 'bcd')\ndef(z: or('wx' 'yz'))\n"));
    let tree = parse_tree_with("use(test.re) a get(a)", true, &mut defs, &sources).unwrap();
    let text = Text::new("aabcdef").unwrap();
    let path = walk_tree(&tree, &text, 0).unwrap().unwrap();
    assert_eq!(path.matched_string(&text), "abcd");
    let tree = parse_tree_with("use(test.re) a get(z)+", true, &mut defs, &sources).unwrap();
    let text = Text::new("aawxyzwx").unwrap();
    let path = walk_tree(&tree, &text, 0).unwrap().unwrap();
    assert_eq!(path.matched_string(&text), "awxyzwx");
}

#[test]
fn use_nested_definition_files() {
    let mut defs = Defs::new();
    let mut sources = Sources::new();
    sources.insert("outer.re", Ok("use(inner.re)\ndef(b: get(a) 'x')\n".to_string()));
    sources.insert("inner.re", Ok("def(a: 'yz')\n".to_string()));
    let tree = parse_tree_with("use(outer.re) get(b)", true, &mut defs, &sources).unwrap();
    let text = Text::new("ayzxq").unwrap();
    let path = walk_tree(&tree, &text, 0).unwrap().unwrap();
    assert_eq!(path.matched_string(&text), "yzx");
}

#[test]
fn definitions_kept_across_parses() {
    let mut defs = Defs::new();
    let sources = Sources::new();
    parse_tree_with("def(x: 'q')", true, &mut defs, &sources).unwrap();
    let tree = parse_tree_with("a get(x)", true, &mut defs, &sources).unwrap();
    let text = Text::new("zaq").unwrap();
    let path = walk_tree(&tree, &text, 0).unwrap().unwrap();
    assert_eq!(path.matched_string(&text), "aq");
}

#[test]
fn use_missing_file() {
    let mut defs = Defs::new();
    let sources = Sources::new();
    match parse_tree_with("use(lib.re)", true, &mut defs, &sources) {
        Err(e) => {
            assert_eq!(e.code, 115);
            assert_eq!(e.msg, "lib.re");
        }
        Ok(_) => panic!("expected error 115"),
    }
}

#[test]
fn use_unreadable_file() {
    let mut defs = Defs::new();
    let sources = sources_with("lib.re", Err("permission denied"));
    match parse_tree_with("use(lib.re)", true, &mut defs, &sources) {
        Err(e) => assert_eq!(e.code, 114),
        Ok(_) => panic!("expected error 114"),
    }
}

#[test]
fn use_recursive_file() {
    let mut defs = Defs::new();
    let sources = sources_with("lib.re", Ok("use(lib.re)"));
    match parse_tree_with("use(lib.re)", true, &mut defs, &sources) {
        Err(e) => assert_eq!(e.code, 116),
        Ok(_) => panic!("expected error 116"),
    }
}

#[test]
fn last_definition_wins() {
    let tree = parse_tree("def(x: 'a') def(x: 'b') get(x)", true).unwrap();
    match &root_nodes(&tree)[0] {
        Node::Def(d) => assert_eq!(chars_of(&d.node).0, "b"),
        _ => panic!("expected a definition reference"),
    }
}

//
// searching and reports
//

#[test]
fn named_reports() {
    let tree = parse_tree(r"\(?<a>x+\)\(?<b>y\)", false).unwrap();
    let text = Text::new("zxxy").unwrap();
    let path = walk_tree(&tree, &text, 0).unwrap().unwrap();
    let report = Report::new(&path, &text);
    assert_eq!(report.string(&text), "xxy");
    assert_eq!(report.subreports.len(), 2);
    assert_eq!(report.subreports[0].string(&text), "xx");
    assert_eq!(report.subreports[1].string(&text), "y");
    let a = report.get_by_name("a");
    assert_eq!(a.len(), 1);
    assert_eq!(a[0].char_pos(), (1, 3));
    let named = report.get_named();
    assert_eq!(named.get("b").unwrap().len(), 1);
    assert!(named.get("c").is_none());
}

fn all_named(report: &Report) -> bool {
    report.name.is_some() && report.subreports.iter().all(all_named)
}

#[test]
fn unnamed_group_gives_way_to_the_names_within() {
    let tree = parse_tree(r"\(?\(?<x>a\)b\)\(?<x>c\)", false).unwrap();
    let text = Text::new("zabc").unwrap();
    let path = walk_tree(&tree, &text, 0).unwrap().unwrap();
    let report = Report::new(&path, &text);
    assert!(all_named(&report));
    let by_name = report.get_by_name("x");
    let named = report.get_named();
    let filed = named.get("x").unwrap();
    assert_eq!(by_name.len(), 2);
    assert_eq!(filed.len(), 2);
    assert_eq!(by_name[0].char_pos(), (1, 2));
    assert_eq!(filed[0].char_pos(), (1, 2));
    assert_eq!(by_name[1].char_pos(), (3, 4));
    assert_eq!(filed[1].char_pos(), (3, 4));
}

#[test]
fn search_all_finds_each_match() {
    let tree = parse_tree("ab", false).unwrap();
    let text = Text::new("abxab").unwrap();
    let all = search_all(&tree, &text, 0, 0).unwrap();
    assert_eq!(all.len(), 2);
    assert_eq!(all[0].range(), (0, 2));
    assert_eq!(all[1].range(), (3, 5));
    let first = search_all(&tree, &text, 0, 1).unwrap();
    assert_eq!(first.len(), 1);
}

#[test]
fn walk_from_a_start_position() {
    let tree = parse_tree("ab", false).unwrap();
    let text = Text::new("abxab").unwrap();
    let path = walk_tree(&tree, &text, 1).unwrap().unwrap();
    assert_eq!(path.range(), (3, 5));
}

#[test]
fn pattern_matching_empty_is_found_at_start() {
    let tree = parse_tree("b*c*", false).unwrap();
    let text = Text::new("xbc").unwrap();
    let path = walk_tree(&tree, &text, 0).unwrap().unwrap();
    assert_eq!(path.range(), (0, 0));
    let path = walk_tree(&tree, &text, 1).unwrap().unwrap();
    assert_eq!(path.matched_string(&text), "bc");
    let all = search_all(&tree, &text, 0, 0).unwrap();
    assert_eq!(all[0].range(), (0, 0));
}

#[test]
fn or_with_skippable_alternative_matches_here() {
    assert_eq!(found(true, "or('q' 'z'*)", "abc"), Some("".to_string()));
    assert_eq!(found(true, "or('q' 'a'*)", "aab"), Some("aa".to_string()));
}

#[test]
fn search_all_advances_past_empty_matches() {
    let tree = parse_tree(r"\d*", false).unwrap();
    let text = Text::new("ab").unwrap();
    let all = search_all(&tree, &text, 0, 0).unwrap();
    let ranges: Vec<(usize, usize)> = all.iter().map(|p| p.range()).collect();
    assert_eq!(ranges, vec![(0, 0), (1, 1), (2, 2)]);
}

#[test]
fn text_offsets() {
    let text = Text::new("aé你").unwrap();
    assert_eq!(text.len(), 3);
    assert_eq!(text.byte_offset(1), 1);
    assert_eq!(text.byte_offset(2), 3);
    assert_eq!(text.byte_offset(3), 6);
    assert_eq!(text.substring(1, 3), "é你");
}

//
// small parts
//

#[test]
fn error_display() {
    let e = Error::make(7, "bad count");
    assert_eq!(e.to_string(), "Error:7: bad count");
}

#[test]
fn limits_display_and_check() {
    let l = Limits { min: 2, max: 4, options: Limits::LAZY };
    assert_eq!(l.simple_display(), "{2,4}?");
    assert_eq!(l.check(2), -1);
    assert_eq!(l.check(3), 0);
    assert_eq!(l.check(5), 0);
    assert_eq!(l.check(6), 1);
    assert_eq!(l.initial_walk_limit(), 2);
    let g = Limits { min: 2, max: 4, options: 0 };
    assert_eq!(g.initial_walk_limit(), 4);
}

#[test]
fn limits_parse_from_stream() {
    let mut p = Peekable::new("{3,}x");
    let l = Limits::parse(&mut p).unwrap();
    assert_eq!((l.min, l.max, l.options), (3, EFFECTIVELY_INFINITE, 0));
    assert_eq!(p.next(), Some('x'));
    let mut q = Peekable::new("x");
    let d = Limits::parse(&mut q).unwrap();
    assert_eq!((d.min, d.max), (1, 1));
    assert_eq!(q.next(), Some('x'));
}

#[test]
fn peekable_laws() {
    let mut p = Peekable::new("bc");
    p.put_back('a');
    assert_eq!(p.next(), Some('a'));
    let mut q = Peekable::new("cd");
    q.put_back_str("ab");
    q.consume(2);
    assert_eq!(q.next(), Some('c'));
    let mut r = Peekable::new("xy");
    r.push('z');
    assert_eq!(r.peek_n(3), vec![Some('x'), Some('y'), Some('z')]);
}

fn config(re: &str, parser: &str, interactive: bool, files: Vec<String>) -> Config {
    Config {
        re: re.to_string(),
        files,
        text: String::new(),
        parser: parser.to_string(),
        interactive,
        tree: false,
        walk: false,
        debug: 0,
        named: false,
        all: false,
        count: 1,
        quiet: false,
    }
}

#[test]
fn config_checks() {
    assert!(Config::load(config("a", "trad", false, vec![])).is_ok());
    assert_eq!(
        Config::load(config("a", "x", false, vec![])).err(),
        Some("Choices for parser are 'traditional' or 'alternative'")
    );
    assert_eq!(
        Config::load(config("", "t", true, vec!["f".to_string()])).err(),
        Some("FILE cannot be specified for interactive run")
    );
    assert_eq!(Config::load(config("", "t", false, vec![])).err(), Some("RE is required unless --interactive given"));
    assert!(config("a", "alt", false, vec![]).alt_parser());
    assert!(!config("a", "trad", false, vec![]).alt_parser());
}

#[test]
fn commands() {
    assert_eq!(get_command(&["pop", "history", "list"], "p"), "pop");
    assert_eq!(get_command(&["pop", "history", "list"], ""), "");
    assert_eq!(get_command(&["pop", "history", "list"], "z"), "unrecognized");
    assert_eq!(get_command(&["list", "load"], "l"), "ambiguous");
    assert_eq!(get_command(&["list", "load"], "lo"), "load");
}

#[test]
fn regexp_guesses() {
    assert_eq!(RegExp::guess_type("and(x)"), 1);
    assert_eq!(RegExp::guess_type("a*"), 0);
    assert_eq!(RegExp::guess_type("abc"), 2);
    let r = RegExp::from_choice("abc", "alternative").unwrap();
    assert!(r.alt_parser);
    assert!(RegExp::from_choice("abc", "cancel").is_none());
}

#[test]
fn session_stacks() {
    let mut session = Interactive::new(config("", "t", true, vec![]));
    assert!(session.re().is_none());
    session.push_re(RegExp { re: "one".to_string(), alt_parser: false });
    session.push_re(RegExp { re: "two".to_string(), alt_parser: true });
    assert_eq!(session.re().unwrap().re, "two");
    assert!(session.use_re(1));
    assert_eq!(session.re().unwrap().re, "one");
    assert!(!session.use_re(5));
    assert!(session.pop_re(0));
    assert_eq!(session.re().unwrap().re, "two");
    session.push_text("hello".to_string());
    assert_eq!(session.text().unwrap(), "hello");
    assert!(session.pop_text(0));
    assert!(session.text().is_none());
}

#[test]
fn search_requests() {
    let words = |v: &[&str]| v.iter().map(|s| s.to_string()).collect::<Vec<String>>();
    assert_eq!(search_request(&words(&["3", "a", "*"])), (words(&["a", "*"]), true));
    assert_eq!(search_request(&words(&["a"])), (words(&["a"]), false));
    assert_eq!(search_request(&words(&["x", "3"])), (words(&["x", "3"]), false));
    assert_eq!(search_request(&words(&[])), (words(&[]), false));
    assert_eq!(search_request(&words(&["+7", "b"])), (words(&["b"]), false));
    assert_eq!(search_request(&words(&["-7", "b"])), (words(&["-7", "b"]), false));
    assert_eq!(search_request(&words(&["99999999999999999999999", "b"])), (words(&["99999999999999999999999", "b"]), false));
}
