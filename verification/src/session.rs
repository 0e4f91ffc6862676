//! The commands of the interactive session and the names it stores under.

use vstd::prelude::*;
use crate::text::{
    chars_of, decimal, lemma_trim_last, push_decimal, string_from_range, trim, trim_range,
};
use crate::text::is_unicode_whitespace;

verus! {

/// What begins the name of a session's directory.
pub const SESSION_DIR_PREFIX: &'static str = "session_";

/// What begins a command that stores a long-term memory.
pub const REMEMBER_PREFIX: &'static str = "/remember ";

/// A line typed by the user, read as a command.
#[derive(Debug)]
pub enum Command {
    /// An empty line: nothing to do.
    Skip,
    /// `exit` or `quit`: end the session.
    Exit,
    /// `/help`: list the commands.
    Help,
    /// `/session`: show where the session is stored.
    Session,
    /// `/memory`: show the memories, the summary and the recent messages.
    Memory,
    /// `/clear`: forget the summary and the recent messages.
    Clear,
    /// `/remember` followed by nothing but whitespace.
    RememberMissing,
    /// `/remember text`: store `text` as a long-term memory.
    Remember(String),
    /// Anything else: a message to the model.
    Chat(String),
}

/// A `/remember` command always carries some text: once a line is
/// trimmed, what follows the `/remember ` prefix cannot trim to nothing, so
/// [`parse_command`] never reads a line as [`Command::RememberMissing`].
pub proof fn lemma_remember_has_text(line: Seq<char>)
    ensures
        REMEMBER_PREFIX@.is_prefix_of(trim(line)) ==> trim(
            trim(line).skip(REMEMBER_PREFIX@.len() as int),
        ).len() > 0,
{
    let t = trim(line);
    let n = REMEMBER_PREFIX@.len() as int;
    if REMEMBER_PREFIX@.is_prefix_of(t) {
        reveal_strlit("/remember ");
        assert(n == 10);
        assert(REMEMBER_PREFIX@[9] == ' ');
        lemma_trim_last(line);
        assert(t.len() > 0);
        assert(!is_unicode_whitespace(t.last()));
        if t.len() == n {
            assert(t[9] == REMEMBER_PREFIX@[9]);
            assert(false);
        }
        let rest = t.skip(n);
        assert(rest.last() == t.last());
        lemma_trim_last(rest);
    }
}

/// The name of the directory of a session started at `timestamp` seconds
/// after the Unix epoch: `session_` followed by the timestamp in decimal.
pub fn session_dir_name(timestamp: u64) -> (r: String)
    ensures
        r@ == SESSION_DIR_PREFIX@ + decimal(timestamp as nat),
{
    let mut r = String::from_str(SESSION_DIR_PREFIX);
    push_decimal(&mut r, timestamp);
    r
}

/// Whether the characters `cs[from..to]` are the text `word`.
fn chars_equal(cs: &Vec<char>, from: usize, to: usize, word: &str) -> (r: bool)
    requires
        from <= to <= cs.len(),
    ensures
        r == (cs@.subrange(from as int, to as int) == word@),
{
    let w = chars_of(word);
    if w.len() != to - from {
        return false;
    }
    let mut i: usize = 0;
    while i < w.len()
        invariant
            i <= w.len() == to - from,
            from <= to <= cs.len(),
            w@ == word@,
            forall|k: int| 0 <= k < i ==> w@[k] == cs@[from + k],
        decreases w.len() - i,
    {
        if cs[from + i] != w[i] {
            assert(cs@.subrange(from as int, to as int)[i as int] == cs@[from + i]);
            return false;
        }
        i = i + 1;
    }
    assert(cs@.subrange(from as int, to as int) =~= word@);
    true
}

/// Reads a line typed by the user as a command.  The line is trimmed
/// first; the text of `/remember` and of a chat message is the trimmed text.
pub fn parse_command(line: &str) -> (r: Command)
    ensures
        ({
            let t = trim(line@);
            if t.len() == 0 {
                r is Skip
            } else if t == "exit"@ || t == "quit"@ {
                r is Exit
            } else if t == "/help"@ {
                r is Help
            } else if t == "/session"@ {
                r is Session
            } else if t == "/memory"@ {
                r is Memory
            } else if t == "/clear"@ {
                r is Clear
            } else if REMEMBER_PREFIX@.is_prefix_of(t) {
                let memory = trim(t.skip(REMEMBER_PREFIX@.len() as int));
                if memory.len() == 0 {
                    r is RememberMissing
                } else {
                    r matches Command::Remember(m) && m@ == memory
                }
            } else {
                r matches Command::Chat(m) && m@ == t
            }
        }),
{
    let cs = chars_of(line);
    let (a, b) = trim_range(&cs, 0, cs.len());
    assert(cs@.subrange(0, cs@.len() as int) =~= cs@);
    let ghost t = cs@.subrange(a as int, b as int);
    if a == b {
        return Command::Skip;
    }
    if chars_equal(&cs, a, b, "exit") || chars_equal(&cs, a, b, "quit") {
        return Command::Exit;
    }
    if chars_equal(&cs, a, b, "/help") {
        return Command::Help;
    }
    if chars_equal(&cs, a, b, "/session") {
        return Command::Session;
    }
    if chars_equal(&cs, a, b, "/memory") {
        return Command::Memory;
    }
    if chars_equal(&cs, a, b, "/clear") {
        return Command::Clear;
    }
    let prefix = chars_of(REMEMBER_PREFIX);
    let n = prefix.len();
    if n <= b - a && chars_equal(&cs, a, a + n, REMEMBER_PREFIX) {
        proof {
            assert(t.subrange(0, n as int) =~= cs@.subrange(a as int, a + n));
            assert(t.skip(n as int) =~= cs@.subrange(a + n, b as int));
        }
        let (c, d) = trim_range(&cs, a + n, b);
        if c == d {
            return Command::RememberMissing;
        }
        return Command::Remember(string_from_range(&cs, c, d));
    }
    proof {
        if REMEMBER_PREFIX@.is_prefix_of(t) {
            assert(t.subrange(0, n as int) =~= cs@.subrange(a as int, a + n));
        }
    }
    Command::Chat(string_from_range(&cs, a, b))
}

} // verus!
