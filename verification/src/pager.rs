//! The program through which long output is paged.

use vstd::prelude::*;
use vstd::string::*;

verus! {

/// The name of the environment variable that names the pager.
pub const PAGER_ENV: &'static str = "TASKWARRIOR_PAGER";

/// The pager that is run where the environment names none.
pub const DEFAULT_PAGER: &'static str = "pager -F -R";

/// A pager to run: the program and the arguments it is given.
#[derive(Clone, Debug, PartialEq, Eq)]
pub struct PagerCommand {
    /// The program.
    pub program: String,
    /// Its arguments, in order.
    pub args: Vec<String>,
}

/// Why no pager could be told from a command line.
#[derive(Clone, Copy, Debug, PartialEq, Eq, Structural)]
pub enum PagerError {
    /// The line does not split into words: a quote is left open.
    Unreadable,
}

/// The words into which a shell splits the command line `line`; nothing
/// where the line cannot be split.
pub uninterp spec fn shell_words_of(line: Seq<char>) -> Option<Seq<Seq<char>>>;

/// The texts of a list of strings.
pub open spec fn texts(words: Seq<String>) -> Seq<Seq<char>> {
    words.map_values(|w: String| w@)
}

/// `shell_words::split` on `line`: the words of the line, or nothing where
/// it reports an error.
#[verifier::external_body]
fn split_words(line: &str) -> (words: Option<Vec<String>>)
    ensures
        match words {
            Some(ws) => shell_words_of(line@) == Some(texts(ws@)),
            None => shell_words_of(line@) is None,
        },
{
    shell_words::split(line).ok()
}

/// The pager that the words `words` name: the first is the program, the
/// others are its arguments. No words name no pager.
pub open spec fn pager_of(words: Seq<Seq<char>>) -> Option<(Seq<char>, Seq<Seq<char>>)> {
    if words.len() == 0 {
        None
    } else {
        Some((words[0], words.skip(1)))
    }
}

/// What a pager is as the contracts see it.
pub open spec fn named(pager: Option<PagerCommand>) -> Option<(Seq<char>, Seq<Seq<char>>)> {
    match pager {
        Some(p) => Some((p.program@, texts(p.args@))),
        None => None,
    }
}

/// Takes the words of a command line for a pager.
pub fn command_of(words: Vec<String>) -> (pager: Option<PagerCommand>)
    ensures
        named(pager) == pager_of(texts(words@)),
{
    let ghost all = words@;
    let mut program: Option<String> = None;
    let mut args: Vec<String> = Vec::new();
    for word in it: words
        invariant
            it.seq() == all,
            program is None <==> it.index() == 0,
            program matches Some(p) ==> p == all[0] && args@ == all.take(it.index() as int).skip(1),
            program is None ==> args@.len() == 0,
    {
        let ghost n = it.index() as int;
        if program.is_none() {
            program = Some(word);
            assert(args@ =~= all.take(n + 1).skip(1));
        } else {
            args.push(word);
            assert(args@ =~= all.take(n + 1).skip(1));
        }
    }
    match program {
        Some(p) => {
            assert(all.take(all.len() as int) =~= all);
            assert(texts(args@) =~= texts(all).skip(1));
            Some(PagerCommand { program: p, args })
        },
        None => None,
    }
}

/// The pager for output that goes to `line`'s reader: none where the output
/// is no terminal; else the one that `line` names, or the usual one where
/// there is no `line`.
pub fn command(is_terminal: bool, line: Option<&str>) -> (r: Result<Option<PagerCommand>, PagerError>)
    ensures
        ({
            let text = match line {
                Some(l) => l@,
                None => DEFAULT_PAGER@,
            };
            match r {
                Ok(pager) => if is_terminal {
                    shell_words_of(text) matches Some(ws) && named(pager) == pager_of(ws)
                } else {
                    pager is None
                },
                Err(e) => is_terminal && shell_words_of(text) is None,
            }
        }),
{
    if !is_terminal {
        return Ok(None);
    }
    let text = match line {
        Some(l) => l,
        None => DEFAULT_PAGER,
    };
    match split_words(text) {
        Some(words) => Ok(command_of(words)),
        None => Err(PagerError::Unreadable),
    }
}

} // verus!
