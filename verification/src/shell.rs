//! Shell-word splitting of command strings (through the `shell-words` crate).
use vstd::prelude::*;
use crate::text::{trim, trimmed};

verus! {

/// `shell_words::split`: the words of `s` after quote removal, or `None` on a
/// parse error (an unterminated quote).
pub uninterp spec fn shell_split(s: Seq<char>) -> Option<Seq<Seq<char>>>;

pub open spec fn string_views(v: Seq<String>) -> Seq<Seq<char>> {
    v.map_values(|w: String| w@)
}

/// A word that `shell_words::split` keeps as it is: non-empty, without
/// separators (space, tab, newline), quotes, backslashes or `#`.
pub open spec fn plain_word(s: Seq<char>) -> bool {
    &&& s.len() > 0
    &&& forall|i: int| 0 <= i < s.len() ==> {
        let c = #[trigger] s[i];
        c != ' ' && c != '\t' && c != '\n' && c != '\'' && c != '"' && c != '\\' && c != '#'
    }
}

/// Splits `s` into words with `shell_words::split`; the result is named by
/// `shell_split`. As its source shows, an empty string has no words, and a
/// plain word splits into itself.
#[verifier::external_body]
pub fn split_words(s: &str) -> (r: Option<Vec<String>>)
    ensures
        r is Some <==> shell_split(s@) is Some,
        r matches Some(v) ==> string_views(v@) == shell_split(s@).unwrap(),
        s@.len() == 0 ==> r is Some,
        plain_word(s@) ==> r is Some,
        r matches Some(v) ==> (s@.len() == 0 ==> v@.len() == 0),
        r matches Some(v) ==> (plain_word(s@) ==> v@.len() == 1 && v@[0]@ == s@),
{
    shell_words::split(s).ok()
}

/// Parsed shell command — argv[0] is the command name, rest are arguments.
#[derive(Debug, Clone, PartialEq)]
pub struct ShellCmd {
    pub argv: Vec<String>,
}

impl ShellCmd {
    /// The command name (argv[0]), or `""` for an empty argv.
    pub fn name(&self) -> (r: &str)
        ensures
            self.argv@.len() == 0 ==> r@ == Seq::<char>::empty(),
            self.argv@.len() > 0 ==> r@ == self.argv@[0]@,
    {
        if self.argv.len() == 0 {
            let e = "";
            proof { reveal_strlit(""); }
            e
        } else {
            self.argv[0].as_str()
        }
    }

    /// The arguments after the command name.
    pub fn args(&self) -> (r: &[String])
        ensures
            self.argv@.len() == 0 ==> r@.len() == 0,
            self.argv@.len() > 0 ==> r@ == self.argv@.subrange(1, self.argv@.len() as int),
    {
        if self.argv.len() == 0 {
            &[]
        } else {
            &self.argv.as_slice()[1..self.argv.len()]
        }
    }
}

/// The words of a command after trimming, when it splits and is not empty.
pub open spec fn parsed_argv(cmd: Seq<char>) -> Option<Seq<Seq<char>>> {
    match shell_split(trim(cmd)) {
        Some(w) => if w.len() > 0 { Some(w) } else { None },
        None => None,
    }
}

/// Parse a shell command string into argv. Returns `None` on parse error or empty input.
pub fn parse(cmd: &str) -> (r: Option<ShellCmd>)
    ensures
        match r {
            Some(c) => parsed_argv(cmd@) == Some(string_views(c.argv@)),
            None => parsed_argv(cmd@) is None,
        },
        trim(cmd@).len() == 0 ==> r is None,
        plain_word(trim(cmd@)) ==> (r matches Some(c) && c.argv@.len() == 1 && c.argv@[0]@ == trim(cmd@)),
{
    let t = trimmed(cmd);
    match split_words(t.as_str()) {
        Some(argv) => {
            if argv.len() == 0 {
                None
            } else {
                Some(ShellCmd { argv })
            }
        },
        None => None,
    }
}

} // verus!
