//! ## Interactive Regular Expression Search
//! The state of an interactive session: stacks of regular expressions and of texts to search,
//! the top one of each being the current one, and the reading of abbreviated commands.
use vstd::prelude::*;

use crate::config::{is_prefix, starts_with, Config};
use crate::defs::chars_eq;
use crate::limits::{digits_value, is_digit};
use crate::text::str_to_chars;

verus! {

/// Whether **pat** occurs in **s**.
pub open spec fn occurs(pat: Seq<char>, s: Seq<char>) -> bool {
    exists|i: int| 0 <= i && i + pat.len() <= s.len() && #[trigger] s.subrange(i, i + pat.len()) == pat
}

/// Whether **pat** occurs in **s**.
fn contains_str(s: &str, pat: &str) -> (r: bool)
    ensures
        r == occurs(pat@, s@),
{
    let sv = str_to_chars(s);
    let pv = str_to_chars(pat);
    if pv.len() > sv.len() {
        return false;
    }
    let last = sv.len() - pv.len();
    let mut i: usize = 0;
    while i <= last
        invariant
            sv@ == s@,
            pv@ == pat@,
            last + pv.len() == sv.len(),
            i <= last + 1,
            forall|j: int| 0 <= j < i ==> #[trigger] s@.subrange(j, j + pat@.len()) != pat@,
        decreases last + 1 - i,
    {
        let mut k: usize = 0;
        let mut same = true;
        while k < pv.len()
            invariant
                sv@ == s@,
                pv@ == pat@,
                i + pv.len() <= sv.len(),
                k <= pv.len(),
                same == (forall|m: int| 0 <= m < k ==> sv@[i + m] == pv@[m]),
            decreases pv.len() - k,
        {
            if sv[i + k] != pv[k] {
                same = false;
            }
            k = k + 1;
        }
        if same {
            proof {
                assert(s@.subrange(i as int, i + pat@.len()) =~= pat@);
            }
            return true;
        }
        proof {
            let m = choose|m: int| 0 <= m < pv.len() && sv@[i + m] != pv@[m];
            assert(s@.subrange(i as int, i + pat@.len())[m] != pat@[m]);
        }
        i = i + 1;
    }
    proof {
        assert forall|j: int| 0 <= j && j + pat@.len() <= s@.len() implies #[trigger] s@.subrange(j, j + pat@.len()) != pat@ by {
            assert(j < i);
        }
    }
    false
}

/// holds a RE, which consists of a string and instructions on what parser to use
pub struct RegExp {
    pub re: String,
    pub alt_parser: bool,
}

/// The guess of **RegExp::guess_type** for a string: 1 (alternative) if it holds "and(", "or("
/// or "get(", else 0 (traditional) if it holds '\', '*' or '+', else 2 (not a regular expression).
pub open spec fn spec_guess(s: Seq<char>) -> usize {
    if occurs("and("@, s) || occurs("or("@, s) || occurs("get("@, s) {
        1
    } else if occurs("\\"@, s) || occurs("*"@, s) || occurs("+"@, s) {
        0
    } else {
        2
    }
}

impl RegExp {
    /// Guesses the type of a regular expression: the index of the default answer among
    /// "traditional", "alternative" and "cancel", which the user is then asked to confirm.
    pub fn guess_type(maybe_re: &str) -> (r: usize)
        ensures
            r == spec_guess(maybe_re@),
    {
        if contains_str(maybe_re, "and(") || contains_str(maybe_re, "or(") || contains_str(maybe_re, "get(") {
            1
        } else if contains_str(maybe_re, "\\") || contains_str(maybe_re, "*") || contains_str(maybe_re, "+") {
            0
        } else {
            2
        }
    }

    /// The regular expression the user chose to read **re** as: "alternative" or "traditional"
    /// (anything else cancels).
    pub fn from_choice(re: &str, choice: &str) -> (r: Option<RegExp>)
        ensures
            r is Some <==> (choice@ == "alternative"@ || choice@ == "traditional"@),
            r matches Some(x) ==> x.re@ == re@ && x.alt_parser == (choice@ == "alternative"@),
    {
        let c = str_to_chars(choice);
        let alt = chars_eq(&c, &str_to_chars("alternative"));
        let trad = chars_eq(&c, &str_to_chars("traditional"));
        if alt {
            Some(RegExp { re: re.to_owned(), alt_parser: true })
        } else if trad {
            proof {
                assert(choice@ != "alternative"@);
            }
            Some(RegExp { re: re.to_owned(), alt_parser: false })
        } else {
            None
        }
    }
}

/// Whether a candidate starts with **cmd**.
pub open spec fn abbrev_test(cmd: Seq<char>) -> spec_fn(&'static str) -> bool {
    |c: &'static str| is_prefix(cmd, c@)
}

/// The candidates that **cmd** abbreviates.
pub open spec fn abbreviated(candidates: Seq<&'static str>, cmd: Seq<char>) -> Seq<&'static str> {
    candidates.filter(abbrev_test(cmd))
}

/// What **get_command** gives: nothing for an empty command, the one candidate it abbreviates,
/// or "unrecognized" or "ambiguous" if it abbreviates none or several.
pub open spec fn spec_command(candidates: Seq<&'static str>, cmd: Seq<char>) -> Seq<char> {
    let hits = abbreviated(candidates, cmd);
    if cmd.len() == 0 {
        ""@
    } else if hits.len() == 0 {
        "unrecognized"@
    } else if hits.len() == 1 {
        hits[0]@
    } else {
        "ambiguous"@
    }
}

/// parses the command from the possibly abbreviated version passed in
pub fn get_command(candidates: &[&'static str], cmd: &str) -> (r: &'static str)
    ensures
        r@ == spec_command(candidates@, cmd@),
{
    if cmd.unicode_len() == 0 {
        return "";
    }
    let ghost cands = candidates@;
    let ghost pred = abbrev_test(cmd@);
    let mut found: Option<&'static str> = None;
    let mut count: usize = 0;
    let mut i: usize = 0;
    while i < candidates.len()
        invariant
            cands == candidates@,
            pred == abbrev_test(cmd@),
            i <= candidates.len(),
            count == cands.take(i as int).filter(pred).len(),
            count <= i,
            count > 0 ==> (found matches Some(f) && f == cands.take(i as int).filter(pred)[0]),
        decreases candidates.len() - i,
    {
        proof {
            assert(cands.take(i + 1) =~= cands.take(i as int).push(cands[i as int]));
            cands.take(i as int).lemma_filter_push(cands[i as int], pred);
        }
        let c = candidates[i];
        proof {
            assert(c == cands[i as int]);
            assert(pred(c) == is_prefix(cmd@, c@));
            if cands.take(i as int).filter(pred).len() > 0 {
                assert(cands.take(i as int).filter(pred).push(c)[0] == cands.take(i as int).filter(pred)[0]);
            }
        }
        if starts_with(c, cmd) {
            if count == 0 {
                found = Some(c);
            }
            count = count + 1;
        }
        i = i + 1;
    }
    proof {
        assert(cands.take(candidates.len() as int) =~= cands);
    }
    if count == 0 {
        "unrecognized"
    } else if count == 1 {
        match found {
            Some(f) => f,
            None => "unrecognized",
        }
    } else {
        "ambiguous"
    }
}

/// The structure used to run an interactive session
pub struct Interactive {
    /// the list of regular expressions, last one is the current value
    pub res: Vec<RegExp>,
    /// the list of target strings, last one is the current value
    pub texts: Vec<String>,
}

/// The stack after moving its entry **num** from the top to the top.
pub open spec fn moved_to_top<T>(s: Seq<T>, num: int) -> Seq<T> {
    s.remove(s.len() - 1 - num).push(s[s.len() - 1 - num])
}

impl Interactive {
    /// constructor for the session object: the regular expression and the text of the
    /// configuration, if given, are the current ones.
    pub fn new(config: Config) -> (r: Interactive)
        ensures
            r.res.len() == (if config.re@.len() > 0 { 1int } else { 0int }),
            config.re@.len() > 0 ==> r.res@[0].re@ == config.re@ && r.res@[0].alt_parser == is_prefix(config.parser@, "alternative"@),
            r.texts.len() == (if config.text@.len() > 0 { 1int } else { 0int }),
            config.text@.len() > 0 ==> r.texts@[0]@ == config.text@,
    {
        let mut res: Vec<RegExp> = Vec::new();
        let alt = config.alt_parser();
        if config.re.as_str().unicode_len() > 0 {
            res.push(RegExp { re: config.re, alt_parser: alt });
        }
        let mut texts: Vec<String> = Vec::new();
        if config.text.as_str().unicode_len() > 0 {
            texts.push(config.text);
        }
        Interactive { res, texts }
    }

    /// gets the current RE, or None
    pub fn re(&self) -> (r: Option<&RegExp>)
        ensures
            r is None <==> self.res.len() == 0,
            r matches Some(x) ==> *x == self.res@.last(),
    {
        if self.res.len() == 0 {
            None
        } else {
            Some(&self.res[self.res.len() - 1])
        }
    }

    /// gets the current search text, or None
    pub fn text(&self) -> (r: Option<&String>)
        ensures
            r is None <==> self.texts.len() == 0,
            r matches Some(x) ==> *x == self.texts@.last(),
    {
        if self.texts.len() == 0 {
            None
        } else {
            Some(&self.texts[self.texts.len() - 1])
        }
    }

    /// makes **re** the current regular expression
    pub fn push_re(&mut self, re: RegExp)
        ensures
            final(self).res@ == old(self).res@.push(re),
            final(self).texts@ == old(self).texts@,
    {
        self.res.push(re);
    }

    /// deletes the regular expression **num** places below the top (0 is the current one);
    /// false if there is no such entry
    pub fn pop_re(&mut self, num: usize) -> (r: bool)
        ensures
            r == (num < old(self).res.len()),
            r ==> final(self).res@ == old(self).res@.remove(old(self).res.len() - 1 - num),
            !r ==> final(self).res@ == old(self).res@,
            final(self).texts@ == old(self).texts@,
    {
        let len = self.res.len();
        if num >= len {
            return false;
        }
        let _ = self.res.remove(len - 1 - num);
        true
    }

    /// makes the regular expression **num** places below the top the current one; false if
    /// there is no such entry
    pub fn use_re(&mut self, num: usize) -> (r: bool)
        ensures
            r == (num < old(self).res.len()),
            r ==> final(self).res@ == moved_to_top(old(self).res@, num as int),
            !r ==> final(self).res@ == old(self).res@,
            final(self).texts@ == old(self).texts@,
    {
        let len = self.res.len();
        if num >= len {
            return false;
        }
        let re = self.res.remove(len - 1 - num);
        self.res.push(re);
        true
    }

    /// makes **text** the current text
    pub fn push_text(&mut self, text: String)
        ensures
            final(self).texts@ == old(self).texts@.push(text),
            final(self).res@ == old(self).res@,
    {
        self.texts.push(text);
    }

    /// deletes the text **num** places below the top (0 is the current one); false if there is
    /// no such entry
    pub fn pop_text(&mut self, num: usize) -> (r: bool)
        ensures
            r == (num < old(self).texts.len()),
            r ==> final(self).texts@ == old(self).texts@.remove(old(self).texts.len() - 1 - num),
            !r ==> final(self).texts@ == old(self).texts@,
            final(self).res@ == old(self).res@,
    {
        let len = self.texts.len();
        if num >= len {
            return false;
        }
        let _ = self.texts.remove(len - 1 - num);
        true
    }

    /// makes the text **num** places below the top the current one; false if there is no such
    /// entry
    pub fn use_text(&mut self, num: usize) -> (r: bool)
        ensures
            r == (num < old(self).texts.len()),
            r ==> final(self).texts@ == moved_to_top(old(self).texts@, num as int),
            !r ==> final(self).texts@ == old(self).texts@,
            final(self).res@ == old(self).res@,
    {
        let len = self.texts.len();
        if num >= len {
            return false;
        }
        let text = self.texts.remove(len - 1 - num);
        self.texts.push(text);
        true
    }
}

/// The number that **s** is the text of, as **str::parse::<usize>** reads it: an optional '+'
/// followed by one or more decimal digits whose value fits in a usize (None otherwise).
pub open spec fn parsed_usize(s: Seq<char>) -> Option<usize> {
    let d = if s.len() > 0 && s[0] == '+' { s.drop_first() } else { s };
    if d.len() > 0 && (forall|i: int| 0 <= i < d.len() ==> #[trigger] is_digit(d[i])) && digits_value(d) <= usize::MAX {
        Some(digits_value(d) as usize)
    } else {
        None
    }
}

/// Reads **s** as a number with std's **str::parse::<usize>** (None where it gives an error). As
/// std documents it, the text is an optional '+' followed by decimal digits only, and a value
/// that does not fit in a usize is an error.
#[verifier::external_body]
fn parse_usize(s: &str) -> (r: Option<usize>)
    ensures
        r == parsed_usize(s@),
{
    s.parse::<usize>().ok()
}

/// The views of a list of strings.
pub open spec fn string_views(v: Seq<String>) -> Seq<Seq<char>> {
    Seq::new(v.len(), |i: int| v[i]@)
}

/// What a search command asks for, from the words after the command: the names of the units
/// to report (a first word that is a number is skipped), and whether "*" is among them, which
/// asks for all the named units.
pub open spec fn spec_search_request(words: Seq<Seq<char>>) -> (Seq<Seq<char>>, bool) {
    let names = if words.len() > 0 && parsed_usize(words[0]) is Some { words.drop_first() } else { words };
    (names, names.contains(seq!['*']))
}

/// Reads a search command: the words after the command give the names of the units to report
/// (a first word that is a number is skipped), and "*" among them asks for all the named units.
pub fn search_request(words: &Vec<String>) -> (r: (Vec<String>, bool))
    ensures
        string_views(r.0@) == spec_search_request(string_views(words@)).0,
        r.1 == spec_search_request(string_views(words@)).1,
{
    let ghost ws = string_views(words@);
    let ghost target = spec_search_request(ws);
    let mut names: Vec<String> = Vec::new();
    let mut all = false;
    let skip: usize = if words.len() > 0 && parse_usize(words[0].as_str()).is_some() { 1 } else { 0 };
    proof {
        assert(target.0 =~= ws.skip(skip as int));
    }
    let mut i: usize = skip;
    while i < words.len()
        invariant
            skip <= i <= words.len(),
            ws == string_views(words@),
            target.0 == ws.skip(skip as int),
            string_views(names@) == ws.subrange(skip as int, i as int),
            all == ws.subrange(skip as int, i as int).contains(seq!['*']),
        decreases words.len() - i,
    {
        let word = words[i].clone();
        let star = str_to_chars(word.as_str());
        let is_star = star.len() == 1 && star[0] == '*';
        proof {
            assert(is_star == (word@ == seq!['*'])) by {
                if is_star {
                    assert(word@ =~= seq!['*']);
                }
            }
        }
        if is_star {
            all = true;
        }
        let ghost before = names@;
        names.push(word);
        proof {
            assert(string_views(names@) =~= string_views(before).push(word@));
            assert(ws.subrange(skip as int, i + 1) =~= ws.subrange(skip as int, i as int).push(ws[i as int]));
            assert(ws[i as int] == word@);
            let prev = ws.subrange(skip as int, i as int);
            let cur = ws.subrange(skip as int, i + 1);
            if cur.contains(seq!['*']) && !is_star {
                let k = choose|k: int| 0 <= k < cur.len() && #[trigger] cur[k] == seq!['*'];
                assert(prev[k] == seq!['*']);
            }
            if is_star {
                assert(ws.subrange(skip as int, i + 1)[i - skip] == seq!['*']);
            }
        }
        i = i + 1;
    }
    proof {
        assert(ws.subrange(skip as int, i as int) =~= ws.skip(skip as int));
    }
    (names, all)
}

/// Making an entry current keeps the stored entries, only their order changes, and the entry
/// becomes the current one.
pub proof fn law_use_keeps_entries<T>(s: Seq<T>, num: int)
    requires
        0 <= num < s.len(),
    ensures
        moved_to_top(s, num).len() == s.len(),
        moved_to_top(s, num).to_multiset() == s.to_multiset(),
        moved_to_top(s, num).last() == s[s.len() - 1 - num],
{
    broadcast use vstd::multiset::group_multiset_axioms;
    let i = s.len() - 1 - num;
    vstd::seq_lib::to_multiset_remove(s, i);
    vstd::seq_lib::to_multiset_build(s.remove(i), s[i]);
    assert(s.to_multiset().count(s[i]) > 0) by {
        s.to_multiset_ensures();
        assert(s.contains(s[i]));
    }
    assert(moved_to_top(s, num).to_multiset() =~= s.to_multiset());
}

} // verus!
