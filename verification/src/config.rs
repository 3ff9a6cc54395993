//! The settings of a search run, and the checks made on them once the command line is read.
use vstd::prelude::*;

use crate::text::str_to_chars;

verus! {

/// Whether **p** is a prefix of **s**.
pub open spec fn is_prefix(p: Seq<char>, s: Seq<char>) -> bool {
    p.len() <= s.len() && s.subrange(0, p.len() as int) == p
}

/// Whether **p** is a prefix of **s** ("s starts with p").
pub fn starts_with(s: &str, p: &str) -> (r: bool)
    ensures
        r == is_prefix(p@, s@),
{
    let sv = str_to_chars(s);
    let pv = str_to_chars(p);
    if pv.len() > sv.len() {
        return false;
    }
    let mut i: usize = 0;
    while i < pv.len()
        invariant
            pv@ == p@,
            sv@ == s@,
            pv.len() <= sv.len(),
            i <= pv.len(),
            forall|k: int| 0 <= k < i ==> sv@[k] == pv@[k],
        decreases pv.len() - i,
    {
        if sv[i] != pv[i] {
            proof {
                assert(s@.subrange(0, p@.len() as int)[i as int] != p@[i as int]);
            }
            return false;
        }
        i = i + 1;
    }
    proof {
        assert(s@.subrange(0, p@.len() as int) =~= p@);
    }
    true
}

/// Config is used to pass the command line arguments to the functions that perform the search
pub struct Config {
    /// Regular expression to search for (required unless --interactive)
    pub re: String,
    /// Files to search
    pub files: Vec<String>,
    /// Text to search
    pub text: String,
    /// Parser to use. Will accept abbreviations. Currently supported are 'traditional' and 'alternative'.
    pub parser: String,
    /// Start up an interactive session
    pub interactive: bool,
    /// Prints the parsed regexp tree
    pub tree: bool,
    /// Dumps the current path (the successful path, if called on the result of walk())
    pub walk: bool,
    /// Prints debug information. 1 - 8 give progressively more data
    pub debug: u32,
    /// Prints result for all named units
    pub named: bool,
    /// find all instances instead of just first
    pub all: bool,
    /// number of matches to find. Overruled by --all if it appears
    pub count: u32,
    /// just print out matched strings, no details or names
    pub quiet: bool,
}

/// The message that **Config::load** refuses a configuration with, if any: the parser must be
/// an abbreviation of "alternative" or "traditional"; an interactive run takes no files and no
/// tree printing; otherwise a regular expression is required, and files and a text cannot both
/// be given.
pub open spec fn config_error(c: Config) -> Option<Seq<char>> {
    if !is_prefix(c.parser@, "alternative"@) && !is_prefix(c.parser@, "traditional"@) {
        Some("Choices for parser are 'traditional' or 'alternative'"@)
    } else if c.interactive {
        if c.files.len() > 0 {
            Some("FILE cannot be specified for interactive run"@)
        } else if c.tree {
            Some("TREE cannot be specified for interactive run"@)
        } else {
            None
        }
    } else if c.re@.len() == 0 {
        Some("RE is required unless --interactive given"@)
    } else if c.text@.len() > 0 && c.files.len() > 0 {
        Some("FILE cannot be given if search text is passed in"@)
    } else {
        None
    }
}

impl Config {
    /// Performs the cross-member checks on the command line settings that are difficult to do
    /// while reading them. This returns the settings if they are allowed, or the reason they are not.
    pub fn load(config: Config) -> (r: Result<Config, &'static str>)
        ensures
            config_error(config) is None <==> r is Ok,
            r matches Ok(c) ==> c == config,
            r matches Err(m) ==> config_error(config) == Some(m@),
    {
        if !starts_with("alternative", config.parser.as_str()) && !starts_with("traditional", config.parser.as_str()) {
            Err("Choices for parser are 'traditional' or 'alternative'")
        } else if config.interactive {
            if config.files.len() > 0 {
                Err("FILE cannot be specified for interactive run")
            } else if config.tree {
                Err("TREE cannot be specified for interactive run")
            } else {
                Ok(config)
            }
        } else if config.re.as_str().unicode_len() == 0 {
            Err("RE is required unless --interactive given")
        } else if config.text.as_str().unicode_len() > 0 && config.files.len() > 0 {
            Err("FILE cannot be given if search text is passed in")
        } else {
            Ok(config)
        }
    }

    /// returns TRUE if the argument directs using the alternative parser, FALSE to use the traditional one
    pub fn alt_parser(&self) -> (r: bool)
        ensures
            r == is_prefix(self.parser@, "alternative"@),
    {
        starts_with("alternative", self.parser.as_str())
    }

    /// The number of matches to find over all the texts: 0, for no limit, with **all**, else **count**.
    pub fn match_number(&self) -> (n: usize)
        ensures
            n == (if self.all { 0 } else { self.count as usize }),
    {
        if self.all { 0 } else { self.count as usize }
    }
}

/// The most matches to look for in the next text, **count** matches having been found out of
/// **match_number** (0 standing for no limit, as it does for the result).
pub fn matches_left(match_number: usize, count: usize) -> (n: usize)
    requires
        match_number == 0 || count < match_number,
    ensures
        n == (if match_number == 0 { 0 } else { match_number - count }),
        match_number > 0 ==> n > 0,
{
    if match_number == 0 { 0 } else { match_number - count }
}

/// Whether the search is done: a limit was set and **count** matches have reached it.
pub fn count_reached(match_number: usize, count: usize) -> (r: bool)
    ensures
        r == (match_number > 0 && count >= match_number),
{
    match_number > 0 && count >= match_number
}

} // verus!
